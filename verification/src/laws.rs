//! What tokenizing and pricing do, stated on the bytes of the source and on
//! the values of numbers, independently of how the grammar is written down.
use vstd::prelude::*;
use vstd::arithmetic::power2::pow2;
use crate::bytes::{byte_at, in_class, is_space, lemma_run_end, run_end, Class};
use crate::grammar::{
    comment_at, context_after, exponent, law_tokens_cover_source, lemma_lex_from,
    lemma_lex_from_steps, lemma_line_end, lemma_trivia_end, lex, lexeme_ok, lhs_comma, line_end,
    number_token, read_in, scan, trivia_end, Shape,
};
use crate::token::{
    cost_or, cost_spec, law_cost_band_least, min, parse_digits, parse_unsigned, parse_value_spec,
    TokenView,
};
use crate::tokenizer::token_view;
use crate::warning::{decimal, digit_char};

verus! {

/// A letter `A`-`Z` or `a`-`z`.
pub open spec fn letter(b: u8) -> bool {
    (0x41u8 <= b <= 0x5Au8) || (0x61u8 <= b <= 0x7Au8)
}

/// A decimal digit `0`-`9`.
pub open spec fn decimal_digit(b: u8) -> bool {
    0x30u8 <= b <= 0x39u8
}

/// A byte of a name: a letter, a digit or `_`.
pub open spec fn name_byte(b: u8) -> bool {
    letter(b) || decimal_digit(b) || b == 0x5Fu8
}

/// Whitespace: space, tab, line feed, form feed, carriage return.
pub open spec fn blank(b: u8) -> bool {
    b == 0x20u8 || b == 0x09u8 || b == 0x0Au8 || b == 0x0Cu8 || b == 0x0Du8
}

/// Lua's one-byte operators: `( + - * / % ^ # & ~ | < > = : .`
pub open spec fn operator_byte(b: u8) -> bool {
    ||| b == 0x28u8
    ||| b == 0x2Bu8
    ||| b == 0x2Du8
    ||| b == 0x2Au8
    ||| b == 0x2Fu8
    ||| b == 0x25u8
    ||| b == 0x5Eu8
    ||| b == 0x23u8
    ||| b == 0x26u8
    ||| b == 0x7Eu8
    ||| b == 0x7Cu8
    ||| b == 0x3Cu8
    ||| b == 0x3Eu8
    ||| b == 0x3Du8
    ||| b == 0x3Au8
    ||| b == 0x2Eu8
}

/// Whether the token before index `k` ends a value (none does before the first).
pub open spec fn value_before(s: Seq<u8>, k: int) -> bool {
    if k == 0 {
        false
    } else {
        context_after(s, lex(s)[k - 1]).0
    }
}

/// The `k`-th token is a range of the source, and what the grammar reads at its
/// start after what comes before it.
proof fn lemma_token(s: Seq<u8>, k: int)
    requires
        0 <= k < lex(s).len(),
    ensures
        lexeme_ok(s, lex(s)[k]),
        (lex(s)[k].shape, lex(s)[k].end) == scan(s, lex(s)[k].start, value_before(s, k)),
{
    lemma_lex_from(s, 0, false, false);
    lemma_lex_from_steps(s, 0, false, false);
    let ts = lex(s);
    if k > 0 {
        assert(read_in(s, ts[k], context_after(s, ts[k - 1]).0, context_after(s, ts[k - 1]).1));
    }
}

/// The exponent never ends before it starts.
proof fn lemma_exponent_end(s: Seq<u8>, i: int, is_hex: bool)
    requires
        0 <= i <= s.len(),
    ensures
        i <= exponent(s, i, is_hex).1,
{
    if i + 1 <= s.len() {
        lemma_run_end(s, i + 1, Class::Digit);
    }
    if i + 2 <= s.len() {
        lemma_run_end(s, i + 2, Class::Digit);
    }
}

/// A number that starts with `.` or `-` takes at least two bytes.
proof fn lemma_signed_number_len(s: Seq<u8>, p: int)
    requires
        0 <= p < s.len(),
        (s[p] == 0x2Eu8 && byte_at(s, p + 1).is_some() && decimal_digit(s[p + 1])) || (s[p]
            == 0x2Du8 && ((byte_at(s, p + 1).is_some() && decimal_digit(s[p + 1])) || (byte_at(
            s,
            p + 1,
        ) == Some(0x2Eu8) && byte_at(s, p + 2).is_some() && decimal_digit(s[p + 2])))),
    ensures
        p + 2 <= number_token(s, p).1,
{
    let q = if s[p] == 0x2Du8 {
        p + 1
    } else {
        p
    };
    let is_hex = byte_at(s, q) == Some(0x30u8) && (byte_at(s, q + 1) == Some(0x78u8) || byte_at(
        s,
        q + 1,
    ) == Some(0x58u8));
    let d = if is_hex {
        q + 2
    } else {
        q
    };
    let c = if is_hex {
        Class::HexDigit
    } else {
        Class::Digit
    };
    lemma_run_end(s, d, c);
    let e1 = run_end(s, d, c);
    if byte_at(s, e1) == Some(0x2Eu8) {
        lemma_run_end(s, e1 + 1, c);
    }
    let e2 = if byte_at(s, e1) == Some(0x2Eu8) {
        run_end(s, e1 + 1, c)
    } else {
        e1
    };
    lemma_exponent_end(s, e2, is_hex);
}

/// Names: a token is a name exactly when it starts with a letter or `_`, and a
/// name is the longest run of letters, digits and `_` from there.
pub proof fn law_names(s: Seq<u8>)
    ensures
        forall|k: int|
            0 <= k < lex(s).len() ==> ((#[trigger] lex(s)[k]).shape is Ident <==> (letter(
                s[lex(s)[k].start],
            ) || s[lex(s)[k].start] == 0x5Fu8)),
        forall|k: int, x: int|
            0 <= k < lex(s).len() && (#[trigger] lex(s)[k]).shape is Ident && lex(s)[k].start <= x
                < lex(s)[k].end ==> name_byte(#[trigger] s[x]),
        forall|k: int|
            0 <= k < lex(s).len() && (#[trigger] lex(s)[k]).shape is Ident ==> (lex(s)[k].end
                == s.len() || !name_byte(s[lex(s)[k].end])),
{
    let ts = lex(s);
    assert forall|k: int| 0 <= k < ts.len() implies {
        &&& ((#[trigger] ts[k]).shape is Ident <==> (letter(s[ts[k].start]) || s[ts[k].start]
            == 0x5Fu8))
        &&& (ts[k].shape is Ident ==> (forall|x: int|
            ts[k].start <= x < ts[k].end ==> name_byte(#[trigger] s[x])))
        &&& (ts[k].shape is Ident ==> (ts[k].end == s.len() || !name_byte(s[ts[k].end])))
    } by {
        lemma_token(s, k);
        lemma_run_end(s, ts[k].start, Class::Word);
    }
    assert forall|k: int, x: int|
        0 <= k < ts.len() && (#[trigger] ts[k]).shape is Ident && ts[k].start <= x
            < ts[k].end implies name_byte(#[trigger] s[x]) by {
        assert(ts[k].shape is Ident ==> (forall|x: int|
            ts[k].start <= x < ts[k].end ==> name_byte(#[trigger] s[x])));
    }
}

/// Operators: a one-byte token that is one of Lua's one-byte operators is
/// punctuation and costs 1; a token of unknown kind is one byte that is no
/// operator, bracket, brace, `,`, `;`, quote, digit, letter or `_`.
pub proof fn law_operators(s: Seq<u8>)
    ensures
        forall|k: int|
            0 <= k < lex(s).len() && (#[trigger] lex(s)[k]).end == lex(s)[k].start + 1
                && operator_byte(s[lex(s)[k].start]) ==> lex(s)[k].shape is Punct && cost_spec(
                token_view(s, lex(s)[k]),
            ) == Some(1nat),
        forall|k: int|
            0 <= k < lex(s).len() && (#[trigger] lex(s)[k]).shape is Unknown ==> {
                let b = s[lex(s)[k].start];
                &&& lex(s)[k].end == lex(s)[k].start + 1
                &&& !operator_byte(b)
                &&& b != 0x29u8 && b != 0x5Du8 && b != 0x7Du8 && b != 0x5Bu8 && b != 0x7Bu8
                &&& b != 0x2Cu8 && b != 0x3Bu8 && b != 0x22u8 && b != 0x27u8
                &&& !decimal_digit(b) && !letter(b) && b != 0x5Fu8
            },
{
    let ts = lex(s);
    assert forall|k: int|
        0 <= k < ts.len() && (#[trigger] ts[k]).end == ts[k].start + 1 && operator_byte(
            s[ts[k].start],
        ) implies ts[k].shape is Punct && cost_spec(token_view(s, ts[k])) == Some(1nat) by {
        lemma_token(s, k);
        let p = ts[k].start;
        let b = s[p];
        if (b == 0x2Eu8 && byte_at(s, p + 1).is_some() && decimal_digit(s[p + 1])) || (b == 0x2Du8
            && ((byte_at(s, p + 1).is_some() && decimal_digit(s[p + 1])) || (byte_at(s, p + 1)
            == Some(0x2Eu8) && byte_at(s, p + 2).is_some() && decimal_digit(s[p + 2])))) {
            lemma_signed_number_len(s, p);
        }
    }
    assert forall|k: int| 0 <= k < ts.len() && (#[trigger] ts[k]).shape is Unknown implies {
        let b = s[ts[k].start];
        &&& ts[k].end == ts[k].start + 1
        &&& !operator_byte(b)
        &&& b != 0x29u8 && b != 0x5Du8 && b != 0x7Du8 && b != 0x5Bu8 && b != 0x7Bu8
        &&& b != 0x2Cu8 && b != 0x3Bu8 && b != 0x22u8 && b != 0x27u8
        &&& !decimal_digit(b) && !letter(b) && b != 0x5Fu8
    } by {
        lemma_token(s, k);
    }
}

/// Bytes that start a token which ends a value: a closing bracket, a quote,
/// a digit, or `[` (which the game counts as ending one).
pub open spec fn starts_value_end(b: u8) -> bool {
    b == 0x29u8 || b == 0x5Du8 || b == 0x7Du8 || b == 0x22u8 || b == 0x27u8 || decimal_digit(b)
        || b == 0x5Bu8
}

/// Bytes that start a token after which a value is still to come: `(`, an
/// operator other than `-` and `.`, `{` or `;`.
pub open spec fn starts_no_value(b: u8) -> bool {
    b == 0x28u8 || b == 0x2Bu8 || b == 0x2Au8 || b == 0x2Fu8 || b == 0x25u8 || b == 0x5Eu8 || b
        == 0x23u8 || b == 0x26u8 || b == 0x7Eu8 || b == 0x7Cu8 || b == 0x3Cu8 || b == 0x3Eu8 || b
        == 0x3Du8 || b == 0x3Au8 || b == 0x7Bu8 || b == 0x3Bu8
}

/// A `-` at `p` followed by a digit, or by `.` and a digit.
pub open spec fn minus_before_digits(s: Seq<u8>, p: int) -> bool {
    &&& s[p] == 0x2Du8
    &&& ((byte_at(s, p + 1).is_some() && decimal_digit(s[p + 1])) || (byte_at(s, p + 1) == Some(
        0x2Eu8,
    ) && byte_at(s, p + 2).is_some() && decimal_digit(s[p + 2])))
}

/// Telling a sign from subtraction: right after a token that starts with a
/// closing bracket, a quote, a digit or `[`, a `-` is never part of a number;
/// at the start, or right after a token that starts with `(`, `{`, `;` or an
/// operator other than `-` and `.`, a `-` before digits starts a number.
pub proof fn law_sign_or_subtraction(s: Seq<u8>)
    ensures
        forall|k: int|
            0 < k < lex(s).len() && starts_value_end(s[lex(s)[k - 1].start]) && s[(
            #[trigger] lex(s)[k]).start] == 0x2Du8 ==> !(lex(s)[k].shape is Number),
        forall|k: int|
            0 <= k < lex(s).len() && (k == 0 || starts_no_value(s[lex(s)[k - 1].start]))
                && minus_before_digits(s, (#[trigger] lex(s)[k]).start) ==> lex(s)[k].shape is Number
                && s.subrange(lex(s)[k].start, lex(s)[k].start + 1) == seq![0x2Du8],
{
    let ts = lex(s);
    assert forall|k: int|
        0 < k < ts.len() && starts_value_end(s[ts[k - 1].start]) && s[(
        #[trigger] ts[k]).start] == 0x2Du8 implies !(ts[k].shape is Number) by {
        lemma_token(s, k);
        lemma_token(s, k - 1);
    }
    assert forall|k: int|
        0 <= k < ts.len() && (k == 0 || starts_no_value(s[ts[k - 1].start])) && minus_before_digits(
            s,
            (#[trigger] ts[k]).start,
        ) implies ts[k].shape is Number && s.subrange(ts[k].start, ts[k].start + 1) == seq![
        0x2Du8,
    ] by {
        lemma_token(s, k);
        if k > 0 {
            lemma_token(s, k - 1);
        }
        assert(s.subrange(ts[k].start, ts[k].start + 1) =~= seq![0x2Du8]);
    }
}

/// A run of class `c` from `i` ends at `a` when the bytes up to `a` are in the
/// class and the byte at `a` (if any) is not.
proof fn lemma_run_end_at(s: Seq<u8>, i: int, a: int, c: Class)
    requires
        0 <= i <= a <= s.len(),
        forall|x: int| i <= x < a ==> in_class(c, #[trigger] s[x]),
        a == s.len() || !in_class(c, s[a]),
    ensures
        run_end(s, i, c) == a,
    decreases a - i,
{
    if i < a {
        lemma_run_end_at(s, i + 1, a, c);
    }
}

/// `s[i..b]` is whitespace, a name at `a..w`, whitespace; `b` is the end of the
/// source or the first byte after the name that is no whitespace.
pub open spec fn blanks_name_blanks(s: Seq<u8>, i: int, a: int, w: int, b: int) -> bool {
    &&& 0 <= i <= a < w <= b <= s.len()
    &&& forall|x: int| i <= x < a ==> blank(#[trigger] s[x])
    &&& letter(s[a]) || s[a] == 0x5Fu8
    &&& forall|x: int| a <= x < w ==> name_byte(#[trigger] s[x])
    &&& w == s.len() || !name_byte(s[w])
    &&& forall|x: int| w <= x < b ==> blank(#[trigger] s[x])
    &&& b == s.len() || !blank(s[b])
}

/// After a comma, the text reads as the rest of an assignment's left-hand side
/// exactly when it is `ws* name ws* (, ws* name ws*)* =` with the `=` not
/// doubled: after one name, a single `=` says yes, `==` or any other byte no,
/// and `,` leaves the answer to the text after it.
pub proof fn law_lhs_comma(s: Seq<u8>, i: int, a: int, w: int, b: int)
    requires
        blanks_name_blanks(s, i, a, w, b),
    ensures
        byte_at(s, b) == Some(0x3Du8) && byte_at(s, b + 1) != Some(0x3Du8) ==> lhs_comma(s, i),
        byte_at(s, b) == Some(0x3Du8) && byte_at(s, b + 1) == Some(0x3Du8) ==> !lhs_comma(s, i),
        byte_at(s, b) == Some(0x2Cu8) ==> (lhs_comma(s, i) <==> lhs_comma(s, b + 1)),
        byte_at(s, b) != Some(0x3Du8) && byte_at(s, b) != Some(0x2Cu8) ==> !lhs_comma(s, i),
{
    lemma_run_end_at(s, i, a, Class::Space);
    lemma_run_end_at(s, a, w, Class::Word);
    lemma_run_end_at(s, w, b, Class::Space);
}

/// After a comma, text that does not go on with a name (after whitespace)
/// never reads as an assignment's left-hand side; nor does a name that starts
/// with a digit.
pub proof fn law_lhs_comma_needs_name(s: Seq<u8>, i: int, a: int)
    requires
        0 <= i <= a <= s.len(),
        forall|x: int| i <= x < a ==> blank(#[trigger] s[x]),
        a == s.len() || !blank(s[a]),
        a == s.len() || !(letter(s[a]) || s[a] == 0x5Fu8),
    ensures
        !lhs_comma(s, i),
{
    lemma_run_end_at(s, i, a, Class::Space);
    lemma_run_end(s, a, Class::Word);
}

/// The name right after a comma is priced as an assignment target exactly when
/// the comma is one of an assignment's left-hand side.
pub proof fn law_targets_after_comma(s: Seq<u8>)
    ensures
        forall|k: int|
            0 < k < lex(s).len() ==> ((#[trigger] lex(s)[k]).after_lhs_comma <==> (lex(s)[k
                - 1].shape is Comma && lhs_comma(s, lex(s)[k - 1].end))),
        lex(s).len() > 0 ==> !lex(s)[0].after_lhs_comma,
{
    lemma_lex_from_steps(s, 0, false, false);
    let ts = lex(s);
    assert forall|k: int| 0 < k < ts.len() implies ((#[trigger] ts[k]).after_lhs_comma <==> (ts[k
        - 1].shape is Comma && lhs_comma(s, ts[k - 1].end))) by {
        assert(read_in(s, ts[k], context_after(s, ts[k - 1]).0, context_after(s, ts[k - 1]).1));
    }
}

/// The value `v` lies in band `j`: at most `16^(j+1)`, and above `16^j` unless
/// `j` is 0.
pub open spec fn in_band(v: nat, j: nat) -> bool {
    v <= pow2(4 * (j + 1)) && (j == 0 || v > pow2(4 * j))
}

/// The price of a value in band `j`: 2^j, at most 2^15.
pub open spec fn band_price(j: nat) -> nat {
    pow2(min(j as int, 15) as nat)
}

/// The value of a hexadecimal number's exponent digits, which are decimal;
/// digits that overflow a `u64` count as `u64::MAX`, no exponent as 0.
pub open spec fn exponent_value(exp: Option<Seq<u8>>) -> nat {
    match exp {
        Some(x) => cost_or(parse_value_spec(x, 10), u64::MAX as nat),
        None => 0,
    }
}

/// A hexadecimal number with a fraction costs the price of its integer
/// digits' value plus the price of its fraction digits' value times 2 to the
/// exponent: the exponent scales the fraction only. For `0x10.1p8` that is
/// the price of 16 plus that of 256, 1 + 2.
pub proof fn law_hex_fraction_cost(
    t: TokenView,
    integer: Seq<u8>,
    fraction: Seq<u8>,
    exp: Option<Seq<u8>>,
    i: nat,
    f: nat,
    ji: nat,
    jf: nat,
)
    requires
        t.shape == (Shape::Number { is_hex: true, int: integer, frac: Some(fraction), exp }),
        parse_value_spec(integer, 16) == Some(i),
        parse_value_spec(fraction, 16) == Some(f),
        in_band(i, ji),
        in_band(f * pow2(exponent_value(exp)), jf),
    ensures
        cost_spec(t) == Some(band_price(ji) + band_price(jf)),
{
    vstd::arithmetic::power2::lemma2_to64();
    assert(i * pow2(0) == i);
    law_cost_band_least(i, 0, ji);
    law_cost_band_least(f, exponent_value(exp), jf);
}

/// A hexadecimal number without a fraction costs the price of its value:
/// its integer digits' value times 2 to the exponent.
pub proof fn law_hex_cost(t: TokenView, integer: Seq<u8>, exp: Option<Seq<u8>>, i: nat, j: nat)
    requires
        t.shape == (Shape::Number { is_hex: true, int: integer, frac: None, exp }),
        parse_value_spec(integer, 16) == Some(i),
        in_band(i * pow2(exponent_value(exp)), j),
    ensures
        cost_spec(t) == Some(band_price(j)),
{
    law_cost_band_least(i, exponent_value(exp), j);
}

/// The price that decimal digits add: that of their value where they parse,
/// else `fallback`.
pub open spec fn part_price(d: Seq<u8>, j: nat, fallback: nat) -> nat {
    if parse_digits(d, 10) is Some {
        band_price(j)
    } else {
        fallback
    }
}

pub open spec fn opt_part_price(d: Option<Seq<u8>>, j: nat, fallback: nat) -> nat {
    match d {
        Some(x) => part_price(x, j, fallback),
        None => 0,
    }
}

/// Whether `j` is the band of the value of digits `d` where they parse.
pub open spec fn band_of_digits(d: Option<Seq<u8>>, j: nat) -> bool {
    d matches Some(x) && parse_digits(x, 10) is Some ==> in_band(
        parse_digits(d.unwrap(), 10).unwrap(),
        j,
    )
}

/// A decimal number costs the prices of the values of its integer, fraction
/// and exponent digits, each on its own (the exponent scales nothing); digits
/// that do not parse add 0, or 1 in a fraction.
pub proof fn law_decimal_cost(
    t: TokenView,
    integer: Seq<u8>,
    frac: Option<Seq<u8>>,
    exp: Option<Seq<u8>>,
    ji: nat,
    jf: nat,
    jx: nat,
)
    requires
        t.shape == (Shape::Number { is_hex: false, int: integer, frac, exp }),
        band_of_digits(Some(integer), ji),
        band_of_digits(frac, jf),
        band_of_digits(exp, jx),
    ensures
        cost_spec(t) == Some(
            part_price(integer, ji, 0) + opt_part_price(frac, jf, 1) + opt_part_price(exp, jx, 0),
        ),
{
    vstd::arithmetic::power2::lemma2_to64();
    if let Some(v) = parse_digits(integer, 10) {
        assert(v * pow2(0) == v);
        law_cost_band_least(v, 0, ji);
    }
    if let Some(fd) = frac {
        if let Some(v) = parse_digits(fd, 10) {
            assert(v * pow2(0) == v);
            law_cost_band_least(v, 0, jf);
        }
    }
    if let Some(x) = exp {
        if let Some(v) = parse_digits(x, 10) {
            assert(v * pow2(0) == v);
            law_cost_band_least(v, 0, jx);
        }
    }
}

/// Lua's keywords: and or not if elseif else then do while repeat until for in
/// return function local goto break.
pub open spec fn lua_keyword(w: Seq<u8>) -> bool {
    ||| w == seq![0x61u8, 0x6eu8, 0x64u8]
    ||| w == seq![0x6fu8, 0x72u8]
    ||| w == seq![0x6eu8, 0x6fu8, 0x74u8]
    ||| w == seq![0x69u8, 0x66u8]
    ||| w == seq![0x65u8, 0x6cu8, 0x73u8, 0x65u8, 0x69u8, 0x66u8]
    ||| w == seq![0x65u8, 0x6cu8, 0x73u8, 0x65u8]
    ||| w == seq![0x74u8, 0x68u8, 0x65u8, 0x6eu8]
    ||| w == seq![0x64u8, 0x6fu8]
    ||| w == seq![0x77u8, 0x68u8, 0x69u8, 0x6cu8, 0x65u8]
    ||| w == seq![0x72u8, 0x65u8, 0x70u8, 0x65u8, 0x61u8, 0x74u8]
    ||| w == seq![0x75u8, 0x6eu8, 0x74u8, 0x69u8, 0x6cu8]
    ||| w == seq![0x66u8, 0x6fu8, 0x72u8]
    ||| w == seq![0x69u8, 0x6eu8]
    ||| w == seq![0x72u8, 0x65u8, 0x74u8, 0x75u8, 0x72u8, 0x6eu8]
    ||| w == seq![0x66u8, 0x75u8, 0x6eu8, 0x63u8, 0x74u8, 0x69u8, 0x6fu8, 0x6eu8]
    ||| w == seq![0x6cu8, 0x6fu8, 0x63u8, 0x61u8, 0x6cu8]
    ||| w == seq![0x67u8, 0x6fu8, 0x74u8, 0x6fu8]
    ||| w == seq![0x62u8, 0x72u8, 0x65u8, 0x61u8, 0x6bu8]
}

/// A name ends a value unless it is a keyword: after a keyword a `-` before
/// digits starts a number, after any other name a `-` is subtraction.
pub proof fn law_names_and_sign(s: Seq<u8>)
    ensures
        forall|k: int|
            0 < k < lex(s).len() && lex(s)[k - 1].shape is Ident && lua_keyword(
                s.subrange(lex(s)[k - 1].start, lex(s)[k - 1].end),
            ) && minus_before_digits(s, (#[trigger] lex(s)[k]).start) ==> lex(s)[k].shape is Number,
        forall|k: int|
            0 < k < lex(s).len() && lex(s)[k - 1].shape is Ident && !lua_keyword(
                s.subrange(lex(s)[k - 1].start, lex(s)[k - 1].end),
            ) && s[(#[trigger] lex(s)[k]).start] == 0x2Du8 ==> !(lex(s)[k].shape is Number),
{
    let ts = lex(s);
    assert forall|k: int|
        0 < k < ts.len() && ts[k - 1].shape is Ident && lua_keyword(
            s.subrange(ts[k - 1].start, ts[k - 1].end),
        ) && minus_before_digits(s, (#[trigger] ts[k]).start) implies ts[k].shape is Number by {
        lemma_token(s, k);
    }
    assert forall|k: int|
        0 < k < ts.len() && ts[k - 1].shape is Ident && !lua_keyword(
            s.subrange(ts[k - 1].start, ts[k - 1].end),
        ) && s[(#[trigger] ts[k]).start] == 0x2Du8 implies !(ts[k].shape is Number) by {
        lemma_token(s, k);
    }
}

/// The byte at `x` lies in a comment: a `--` starts at some `c <= x` and no
/// line feed comes between `c` and `x`.
pub open spec fn in_comment(s: Seq<u8>, x: int) -> bool {
    exists|c: int|
        0 <= c <= x < s.len() && #[trigger] s[c] == 0x2Du8 && byte_at(s, c + 1) == Some(0x2Du8)
            && forall|y: int| c <= y < x ==> s[y] != 0x0Au8
}

/// Within a comment's line, only its last byte can be the line feed.
proof fn lemma_line_has_no_lf(s: Seq<u8>, i: int)
    requires
        0 <= i <= s.len(),
    ensures
        forall|y: int| i <= y < line_end(s, i) && s[y] == 0x0Au8 ==> y == line_end(s, i) - 1,
        i <= line_end(s, i) <= s.len(),
    decreases s.len() - i,
{
    lemma_line_end(s, i);
    if i < s.len() && s[i] != 0x0Au8 {
        lemma_line_has_no_lf(s, i + 1);
    }
}

/// Everything that the lexer skips from `i` is whitespace or comment.
proof fn lemma_trivia_bytes(s: Seq<u8>, i: int)
    requires
        0 <= i <= s.len(),
    ensures
        forall|x: int| i <= x < trivia_end(s, i) ==> blank(#[trigger] s[x]) || in_comment(s, x),
    decreases s.len() - i,
{
    lemma_trivia_end(s, i);
    if i < s.len() && is_space(s[i]) {
        lemma_trivia_bytes(s, i + 1);
    } else if comment_at(s, i) {
        let l = line_end(s, i + 2);
        lemma_line_has_no_lf(s, i + 2);
        lemma_trivia_bytes(s, l);
        assert forall|x: int| i <= x < l implies blank(#[trigger] s[x]) || in_comment(s, x) by {
            if s[x] != 0x0Au8 {
                assert(forall|y: int| i <= y < x ==> s[y] != 0x0Au8);
                assert(s[i] == 0x2Du8);
            }
        }
    }
}

/// Between tokens, before the first and after the last, the source holds only
/// whitespace and comments; a token never starts with whitespace or `--`.
pub proof fn law_gaps_are_trivia(s: Seq<u8>)
    ensures
        ({
            let ts = lex(s);
            &&& forall|k: int|
                0 <= k < ts.len() ==> !blank(s[(#[trigger] ts[k]).start]) && !(s[ts[k].start]
                    == 0x2Du8 && byte_at(s, ts[k].start + 1) == Some(0x2Du8))
            &&& forall|x: int|
                0 <= x < s.len() && (ts.len() == 0 || x < ts[0].start) ==> blank(#[trigger] s[x])
                    || in_comment(s, x)
            &&& forall|k: int, x: int|
                0 < k < ts.len() && ts[k - 1].end <= x < (#[trigger] ts[k]).start ==> blank(
                    #[trigger] s[x],
                ) || in_comment(s, x)
            &&& forall|x: int|
                0 <= x < s.len() && ts.len() > 0 && ts[ts.len() - 1].end <= x ==> blank(
                    #[trigger] s[x],
                ) || in_comment(s, x)
        }),
{
    law_tokens_cover_source(s);
    lemma_lex_from(s, 0, false, false);
    let ts = lex(s);
    lemma_trivia_bytes(s, 0);
    assert forall|k: int| 0 <= k < ts.len() implies !blank(s[(#[trigger] ts[k]).start]) && !(
    s[ts[k].start] == 0x2Du8 && byte_at(s, ts[k].start + 1) == Some(0x2Du8)) by {
        if k == 0 {
            lemma_trivia_end(s, 0);
        } else {
            lemma_trivia_end(s, ts[k - 1].end);
        }
    }
    assert forall|k: int, x: int|
        0 < k < ts.len() && ts[k - 1].end <= x < (#[trigger] ts[k]).start implies blank(
        #[trigger] s[x],
    ) || in_comment(s, x) by {
        lemma_trivia_bytes(s, ts[k - 1].end);
    }
    if ts.len() > 0 {
        lemma_trivia_bytes(s, ts[ts.len() - 1].end);
    }
}

/// Whether a line feed lies in `s[a..b]`.
pub open spec fn has_line_feed(s: Seq<u8>, a: int, b: int) -> bool {
    exists|y: int| a <= y < b && #[trigger] s[y] == 0x0Au8
}

/// A `--` among the bytes skipped from `i` is followed, before the skipping
/// stops, by a line feed, unless the skipping runs to the end of the source.
proof fn lemma_comments_run_to_line_end(s: Seq<u8>, i: int)
    requires
        0 <= i <= s.len(),
    ensures
        forall|c: int|
            i <= c < trivia_end(s, i) && #[trigger] s[c] == 0x2Du8 && byte_at(s, c + 1) == Some(
                0x2Du8,
            ) ==> trivia_end(s, i) == s.len() || has_line_feed(s, c, trivia_end(s, i)),
    decreases s.len() - i,
{
    lemma_trivia_end(s, i);
    if i < s.len() && is_space(s[i]) {
        lemma_comments_run_to_line_end(s, i + 1);
    } else if comment_at(s, i) {
        let l = line_end(s, i + 2);
        lemma_line_end(s, i + 2);
        lemma_trivia_end(s, l);
        lemma_comments_run_to_line_end(s, l);
        let t = trivia_end(s, i);
        assert forall|c: int|
            i <= c < t && #[trigger] s[c] == 0x2Du8 && byte_at(s, c + 1) == Some(0x2Du8) implies t
            == s.len() || has_line_feed(s, c, t) by {
            if c < l && l < s.len() {
                assert(s[l - 1] == 0x0Au8);
                assert(c < l - 1);
            } else if c < l && l == s.len() {
                lemma_trivia_end(s, s.len() as int);
            }
        }
    }
}

/// A comment runs to the end of its line: where whitespace and comments
/// before a token hold a `--`, a line feed follows it before the token.
pub proof fn law_comments_run_to_line_end(s: Seq<u8>)
    ensures
        forall|k: int, c: int|
            0 <= k < lex(s).len() && (if k == 0 {
                0
            } else {
                lex(s)[k - 1].end
            }) <= c < (#[trigger] lex(s)[k]).start && #[trigger] s[c] == 0x2Du8 && byte_at(
                s,
                c + 1,
            ) == Some(0x2Du8) ==> has_line_feed(s, c, lex(s)[k].start),
{
    law_tokens_cover_source(s);
    lemma_lex_from(s, 0, false, false);
    let ts = lex(s);
    assert forall|k: int, c: int|
        0 <= k < ts.len() && (if k == 0 {
            0
        } else {
            ts[k - 1].end
        }) <= c < (#[trigger] ts[k]).start && #[trigger] s[c] == 0x2Du8 && byte_at(s, c + 1)
            == Some(0x2Du8) implies has_line_feed(s, c, ts[k].start) by {
        let from = if k == 0 {
            0
        } else {
            ts[k - 1].end
        };
        assert(lexeme_ok(s, ts[k]));
        lemma_comments_run_to_line_end(s, from);
    }
}

/// The number of backslashes right before offset `x`, counting back no
/// further than `lo`.
pub open spec fn backslashes_before(s: Seq<u8>, lo: int, x: int) -> nat
    decreases x - lo,
{
    if lo < x && x <= s.len() && s[x - 1] == 0x5Cu8 {
        1 + backslashes_before(s, lo, x - 1)
    } else {
        0
    }
}

proof fn lemma_string_escapes(s: Seq<u8>, lo: int, i: int, q: u8)
    requires
        0 <= lo <= i <= s.len(),
        q != 0x5Cu8,
        backslashes_before(s, lo, i) % 2 == 0,
        forall|x: int| lo <= x < i && #[trigger] s[x] == q ==> backslashes_before(s, lo, x) % 2 == 1,
    ensures
        ({
            let c = crate::grammar::string_close(s, i, q);
            &&& c < s.len() ==> s[c] == q && backslashes_before(s, lo, c) % 2 == 0
            &&& forall|x: int|
                lo <= x < c && #[trigger] s[x] == q ==> backslashes_before(s, lo, x) % 2 == 1
        }),
    decreases s.len() - i,
{
    if i < s.len() && s[i] != q {
        if s[i] == 0x5Cu8 && i + 1 < s.len() {
            assert(backslashes_before(s, lo, i + 1) == 1 + backslashes_before(s, lo, i));
            if s[i + 1] == 0x5Cu8 {
                assert(backslashes_before(s, lo, i + 2) == 1 + backslashes_before(s, lo, i + 1));
            } else {
                assert(backslashes_before(s, lo, i + 2) == 0);
            }
            lemma_string_escapes(s, lo, i + 2, q);
        } else if s[i] == 0x5Cu8 {
            crate::grammar::lemma_string_close(s, i + 1, q);
        } else {
            assert(backslashes_before(s, lo, i + 1) == 0);
            lemma_string_escapes(s, lo, i + 1, q);
        }
    }
}

/// Strings: a token is a string exactly when it starts with a quote; its
/// content runs to the first same quote that is not escaped, that is, after an
/// even number of backslashes (every quote inside follows an odd number), and
/// the token ends after that quote, or at the end of the source where none
/// closes it.
pub proof fn law_strings(s: Seq<u8>)
    ensures
        forall|k: int|
            0 <= k < lex(s).len() ==> ((#[trigger] lex(s)[k]).shape is Str <==> (s[lex(s)[k].start]
                == 0x22u8 || s[lex(s)[k].start] == 0x27u8)),
        forall|k: int|
            0 <= k < lex(s).len() && (#[trigger] lex(s)[k]).shape is Str ==> {
                let t = lex(s)[k];
                let q = s[t.start];
                let c = t.shape->Str_0;
                &&& c.lo == t.start + 1 && c.lo <= c.hi <= s.len()
                &&& c.hi < s.len() ==> s[c.hi] == q && backslashes_before(s, c.lo, c.hi) % 2 == 0
                    && t.end == c.hi + 1
                &&& c.hi == s.len() ==> t.end == s.len()
                &&& forall|x: int|
                    c.lo <= x < c.hi && #[trigger] s[x] == q ==> backslashes_before(s, c.lo, x) % 2
                        == 1
            },
{
    let ts = lex(s);
    assert forall|k: int| 0 <= k < ts.len() implies {
        &&& ((#[trigger] ts[k]).shape is Str <==> (s[ts[k].start] == 0x22u8 || s[ts[k].start]
            == 0x27u8))
        &&& ts[k].shape is Str ==> {
            let t = ts[k];
            let q = s[t.start];
            let c = t.shape->Str_0;
            &&& c.lo == t.start + 1 && c.lo <= c.hi <= s.len()
            &&& c.hi < s.len() ==> s[c.hi] == q && backslashes_before(s, c.lo, c.hi) % 2 == 0
                && t.end == c.hi + 1
            &&& c.hi == s.len() ==> t.end == s.len()
            &&& forall|x: int|
                c.lo <= x < c.hi && #[trigger] s[x] == q ==> backslashes_before(s, c.lo, x) % 2 == 1
        }
    } by {
        lemma_token(s, k);
        let p = ts[k].start;
        if s[p] == 0x22u8 || s[p] == 0x27u8 {
            crate::grammar::lemma_string_close(s, p + 1, s[p]);
            lemma_string_escapes(s, p + 1, p + 1, s[p]);
        }
    }
}

/// A digit of a number: hexadecimal (`0`-`9`, `A`-`F`, `a`-`f`) or decimal.
pub open spec fn number_digit(b: u8, hex: bool) -> bool {
    decimal_digit(b) || (hex && ((0x41u8 <= b <= 0x46u8) || (0x61u8 <= b <= 0x66u8)))
}

/// `s[lo..hi]` is the longest run of digits (of the given kind) from `lo`.
pub open spec fn digit_run(s: Seq<u8>, lo: int, hi: int, hex: bool) -> bool {
    &&& 0 <= lo <= hi <= s.len()
    &&& forall|x: int| lo <= x < hi ==> number_digit(#[trigger] s[x], hex)
    &&& hi == s.len() || !number_digit(s[hi], hex)
}

/// Numbers, on bytes: an optional `-`, then `0x` or `0X` exactly for a
/// hexadecimal number, the longest run of its digits, a fraction exactly where
/// `.` follows (the longest run of digits after it), then the exponent. After
/// hexadecimal digits, `p` or `P` is taken, with decimal digits after it when a
/// digit follows; after decimal ones, `e` or `E` is taken only before digits or
/// before `-` and digits. The token ends where the last of these ends.
pub proof fn law_numbers(s: Seq<u8>)
    ensures
        forall|k: int|
            0 <= k < lex(s).len() && (#[trigger] lex(s)[k]).shape is Number ==> {
                let t = lex(s)[k];
                let q = if s[t.start] == 0x2Du8 {
                    t.start + 1
                } else {
                    t.start
                };
                let is_hex = t.shape->is_hex;
                let ip = t.shape->int;
                let frac = t.shape->frac;
                let exp = t.shape->exp;
                let e2 = match frac {
                    Some(f) => f.hi,
                    None => ip.hi,
                };
                let m = byte_at(s, e2);
                &&& is_hex <==> (byte_at(s, q) == Some(0x30u8) && (byte_at(s, q + 1) == Some(0x78u8)
                    || byte_at(s, q + 1) == Some(0x58u8)))
                &&& ip.lo == (if is_hex {
                    q + 2
                } else {
                    q
                })
                &&& digit_run(s, ip.lo, ip.hi, is_hex)
                &&& (frac is Some <==> byte_at(s, ip.hi) == Some(0x2Eu8))
                &&& frac matches Some(f) ==> f.lo == ip.hi + 1 && digit_run(s, f.lo, f.hi, is_hex)
                &&& is_hex ==> {
                    &&& (m == Some(0x70u8) || m == Some(0x50u8)) ==> {
                        &&& exp is Some <==> (byte_at(s, e2 + 1).is_some() && decimal_digit(
                            s[e2 + 1],
                        ))
                        &&& exp matches Some(x) ==> x.lo == e2 + 1 && digit_run(s, x.lo, x.hi, false)
                            && t.end == x.hi
                        &&& exp is None ==> t.end == e2 + 1
                    }
                    &&& !(m == Some(0x70u8) || m == Some(0x50u8)) ==> exp is None && t.end == e2
                }
                &&& !is_hex ==> {
                    let digits_next = byte_at(s, e2 + 1).is_some() && decimal_digit(s[e2 + 1]);
                    let minus_digits = byte_at(s, e2 + 1) == Some(0x2Du8) && byte_at(
                        s,
                        e2 + 2,
                    ).is_some() && decimal_digit(s[e2 + 2]);
                    &&& exp is Some <==> ((m == Some(0x65u8) || m == Some(0x45u8)) && (digits_next
                        || minus_digits))
                    &&& exp matches Some(x) ==> x.lo == (if minus_digits {
                        e2 + 2
                    } else {
                        e2 + 1
                    }) && digit_run(s, x.lo, x.hi, false) && t.end == x.hi
                    &&& exp is None ==> t.end == e2
                }
            },
{
    let ts = lex(s);
    assert forall|k: int| 0 <= k < ts.len() && (#[trigger] ts[k]).shape is Number implies {
        let t = ts[k];
        let q = if s[t.start] == 0x2Du8 {
            t.start + 1
        } else {
            t.start
        };
        let is_hex = t.shape->is_hex;
        let ip = t.shape->int;
        let frac = t.shape->frac;
        let exp = t.shape->exp;
        let e2 = match frac {
            Some(f) => f.hi,
            None => ip.hi,
        };
        let m = byte_at(s, e2);
        &&& is_hex <==> (byte_at(s, q) == Some(0x30u8) && (byte_at(s, q + 1) == Some(0x78u8)
            || byte_at(s, q + 1) == Some(0x58u8)))
        &&& ip.lo == (if is_hex {
            q + 2
        } else {
            q
        })
        &&& digit_run(s, ip.lo, ip.hi, is_hex)
        &&& (frac is Some <==> byte_at(s, ip.hi) == Some(0x2Eu8))
        &&& frac matches Some(f) ==> f.lo == ip.hi + 1 && digit_run(s, f.lo, f.hi, is_hex)
        &&& is_hex ==> {
            &&& (m == Some(0x70u8) || m == Some(0x50u8)) ==> {
                &&& exp is Some <==> (byte_at(s, e2 + 1).is_some() && decimal_digit(s[e2 + 1]))
                &&& exp matches Some(x) ==> x.lo == e2 + 1 && digit_run(s, x.lo, x.hi, false)
                    && t.end == x.hi
                &&& exp is None ==> t.end == e2 + 1
            }
            &&& !(m == Some(0x70u8) || m == Some(0x50u8)) ==> exp is None && t.end == e2
        }
        &&& !is_hex ==> {
            let digits_next = byte_at(s, e2 + 1).is_some() && decimal_digit(s[e2 + 1]);
            let minus_digits = byte_at(s, e2 + 1) == Some(0x2Du8) && byte_at(s, e2 + 2).is_some()
                && decimal_digit(s[e2 + 2]);
            &&& exp is Some <==> ((m == Some(0x65u8) || m == Some(0x45u8)) && (digits_next
                || minus_digits))
            &&& exp matches Some(x) ==> x.lo == (if minus_digits {
                e2 + 2
            } else {
                e2 + 1
            }) && digit_run(s, x.lo, x.hi, false) && t.end == x.hi
            &&& exp is None ==> t.end == e2
        }
    } by {
        lemma_token(s, k);
        let p = ts[k].start;
        let q = if s[p] == 0x2Du8 {
            p + 1
        } else {
            p
        };
        assert(q <= s.len());
        let is_hex = byte_at(s, q) == Some(0x30u8) && (byte_at(s, q + 1) == Some(0x78u8)
            || byte_at(s, q + 1) == Some(0x58u8));
        let d = if is_hex {
            q + 2
        } else {
            q
        };
        let c = if is_hex {
            Class::HexDigit
        } else {
            Class::Digit
        };
        lemma_run_end(s, d, c);
        let e1 = run_end(s, d, c);
        if byte_at(s, e1) == Some(0x2Eu8) {
            lemma_run_end(s, e1 + 1, c);
        }
        let e2 = if byte_at(s, e1) == Some(0x2Eu8) {
            run_end(s, e1 + 1, c)
        } else {
            e1
        };
        if e2 + 1 <= s.len() {
            lemma_run_end(s, e2 + 1, Class::Digit);
        }
        if e2 + 2 <= s.len() {
            lemma_run_end(s, e2 + 2, Class::Digit);
        }
    }
}

/// Lua's two-byte operators: `== ~= <= >= .. :: << >> //`.
pub open spec fn two_byte_operator(a: u8, b: u8) -> bool {
    ||| (a == 0x3Du8 && b == 0x3Du8)
    ||| (a == 0x7Eu8 && b == 0x3Du8)
    ||| (a == 0x3Cu8 && b == 0x3Du8)
    ||| (a == 0x3Eu8 && b == 0x3Du8)
    ||| (a == 0x2Eu8 && b == 0x2Eu8)
    ||| (a == 0x3Au8 && b == 0x3Au8)
    ||| (a == 0x3Cu8 && b == 0x3Cu8)
    ||| (a == 0x3Eu8 && b == 0x3Eu8)
    ||| (a == 0x2Fu8 && b == 0x2Fu8)
}

/// Punctuation by its bytes: a closing bracket is one free byte; `{` and `[`
/// one byte costing 1; `;` one byte of undetermined cost; `,[` one token
/// costing 1, any other `,` one byte costing 1; `...` one token, and each
/// two-byte operator one token, costing 1.
pub proof fn law_punctuation(s: Seq<u8>)
    ensures
        forall|k: int|
            0 <= k < lex(s).len() ==> {
                let t = #[trigger] lex(s)[k];
                let p = t.start;
                let b = s[p];
                let cost = cost_spec(token_view(s, t));
                &&& (b == 0x29u8 || b == 0x5Du8 || b == 0x7Du8) ==> t.shape is ClosingBracket
                    && t.end == p + 1 && cost == Some(0nat)
                &&& b == 0x7Bu8 ==> t.shape is OpenBrace && t.end == p + 1 && cost == Some(1nat)
                &&& b == 0x5Bu8 ==> t.shape is OpenBracket && t.end == p + 1 && cost == Some(1nat)
                &&& b == 0x3Bu8 ==> t.shape is Semicolon && t.end == p + 1 && cost is None
                &&& (b == 0x2Cu8 && byte_at(s, p + 1) == Some(0x5Bu8)) ==> t.shape is CommaOpenBracket
                    && t.end == p + 2 && cost == Some(1nat)
                &&& (b == 0x2Cu8 && byte_at(s, p + 1) != Some(0x5Bu8)) ==> t.shape is Comma && t.end
                    == p + 1 && cost == Some(1nat)
                &&& (b == 0x2Eu8 && byte_at(s, p + 1) == Some(0x2Eu8) && byte_at(s, p + 2) == Some(
                    0x2Eu8,
                )) ==> t.shape is Punct && t.end == p + 3 && cost == Some(1nat)
                &&& (p + 1 < s.len() && two_byte_operator(b, s[p + 1]) && !(byte_at(s, p + 2)
                    == Some(0x2Eu8) && b == 0x2Eu8)) ==> t.shape is Punct && t.end == p + 2 && cost
                    == Some(1nat)
            },
{
    let ts = lex(s);
    assert forall|k: int| 0 <= k < ts.len() implies {
        let t = #[trigger] ts[k];
        let p = t.start;
        let b = s[p];
        let cost = cost_spec(token_view(s, t));
        &&& (b == 0x29u8 || b == 0x5Du8 || b == 0x7Du8) ==> t.shape is ClosingBracket && t.end == p
            + 1 && cost == Some(0nat)
        &&& b == 0x7Bu8 ==> t.shape is OpenBrace && t.end == p + 1 && cost == Some(1nat)
        &&& b == 0x5Bu8 ==> t.shape is OpenBracket && t.end == p + 1 && cost == Some(1nat)
        &&& b == 0x3Bu8 ==> t.shape is Semicolon && t.end == p + 1 && cost is None
        &&& (b == 0x2Cu8 && byte_at(s, p + 1) == Some(0x5Bu8)) ==> t.shape is CommaOpenBracket
            && t.end == p + 2 && cost == Some(1nat)
        &&& (b == 0x2Cu8 && byte_at(s, p + 1) != Some(0x5Bu8)) ==> t.shape is Comma && t.end == p
            + 1 && cost == Some(1nat)
        &&& (b == 0x2Eu8 && byte_at(s, p + 1) == Some(0x2Eu8) && byte_at(s, p + 2) == Some(
            0x2Eu8,
        )) ==> t.shape is Punct && t.end == p + 3 && cost == Some(1nat)
        &&& (p + 1 < s.len() && two_byte_operator(b, s[p + 1]) && !(byte_at(s, p + 2) == Some(
            0x2Eu8,
        ) && b == 0x2Eu8)) ==> t.shape is Punct && t.end == p + 2 && cost == Some(1nat)
    } by {
        lemma_token(s, k);
    }
}

/// What `tokenize` hands out for a token: its text is the source's bytes from
/// its start to its end, a string's content the bytes after the opening quote
/// up to the closing one, and a number's parts the bytes of their ranges.
pub proof fn law_token_views(s: Seq<u8>)
    ensures
        forall|k: int|
            0 <= k < lex(s).len() ==> {
                let t = #[trigger] lex(s)[k];
                let v = token_view(s, t);
                &&& v.text.len() == t.end - t.start
                &&& forall|x: int| 0 <= x < v.text.len() ==> v.text[x] == s[t.start + x]
                &&& v.after_lhs_comma == t.after_lhs_comma
                &&& t.shape is Str ==> v.shape is Str && v.shape->Str_0 == s.subrange(
                    t.start + 1,
                    t.shape->Str_0.hi,
                )
                &&& t.shape is Number ==> v.shape is Number && v.shape->is_hex == t.shape->is_hex
                    && v.shape->int == s.subrange(t.shape->int.lo, t.shape->int.hi) && (
                v.shape->frac is Some <==> t.shape->frac is Some) && (v.shape->exp is Some
                    <==> t.shape->exp is Some)
                &&& (t.shape is Number && t.shape->frac is Some) ==> v.shape->frac.unwrap()
                    == s.subrange(t.shape->frac.unwrap().lo, t.shape->frac.unwrap().hi)
                &&& (t.shape is Number && t.shape->exp is Some) ==> v.shape->exp.unwrap()
                    == s.subrange(t.shape->exp.unwrap().lo, t.shape->exp.unwrap().hi)
                &&& (t.shape is Ident <==> v.shape is Ident) && (t.shape is ClosingBracket
            <==> v.shape is ClosingBracket) && (t.shape is Punct <==> v.shape is Punct) && (
        t.shape is OpenBrace <==> v.shape is OpenBrace) && (t.shape is OpenBracket
            <==> v.shape is OpenBracket) && (t.shape is CommaOpenBracket
            <==> v.shape is CommaOpenBracket) && (t.shape is Comma <==> v.shape is Comma) && (
        t.shape is Semicolon <==> v.shape is Semicolon) && (t.shape is Unknown
            <==> v.shape is Unknown)
            },
{
    let ts = lex(s);
    assert forall|k: int| 0 <= k < ts.len() implies {
        let t = #[trigger] ts[k];
        let v = token_view(s, t);
        &&& v.text.len() == t.end - t.start
        &&& forall|x: int| 0 <= x < v.text.len() ==> v.text[x] == s[t.start + x]
        &&& v.after_lhs_comma == t.after_lhs_comma
        &&& t.shape is Str ==> v.shape is Str && v.shape->Str_0 == s.subrange(
            t.start + 1,
            t.shape->Str_0.hi,
        )
        &&& t.shape is Number ==> v.shape is Number && v.shape->is_hex == t.shape->is_hex
            && v.shape->int == s.subrange(t.shape->int.lo, t.shape->int.hi) && (v.shape->frac is Some
            <==> t.shape->frac is Some) && (v.shape->exp is Some <==> t.shape->exp is Some)
        &&& (t.shape is Number && t.shape->frac is Some) ==> v.shape->frac.unwrap() == s.subrange(
            t.shape->frac.unwrap().lo,
            t.shape->frac.unwrap().hi,
        )
        &&& (t.shape is Number && t.shape->exp is Some) ==> v.shape->exp.unwrap() == s.subrange(
            t.shape->exp.unwrap().lo,
            t.shape->exp.unwrap().hi,
        )
        &&& (t.shape is Ident <==> v.shape is Ident) && (t.shape is ClosingBracket
            <==> v.shape is ClosingBracket) && (t.shape is Punct <==> v.shape is Punct) && (
        t.shape is OpenBrace <==> v.shape is OpenBrace) && (t.shape is OpenBracket
            <==> v.shape is OpenBracket) && (t.shape is CommaOpenBracket
            <==> v.shape is CommaOpenBracket) && (t.shape is Comma <==> v.shape is Comma) && (
        t.shape is Semicolon <==> v.shape is Semicolon) && (t.shape is Unknown
            <==> v.shape is Unknown)
    } by {
        lemma_token(s, k);
        law_strings(s);
    }
}

/// The value of a digit byte: `0`-`9` are 0-9, `A`-`F` and `a`-`f` are 10-15.
pub open spec fn value_of_digit(b: u8) -> nat {
    if decimal_digit(b) {
        (b - 0x30u8) as nat
    } else if 0x41u8 <= b <= 0x46u8 {
        (b - 0x37u8) as nat
    } else {
        (b - 0x57u8) as nat
    }
}

/// Digits read as `u64::from_str_radix` reads them: one digit is its value,
/// another digit appended multiplies by the radix and adds its value while the
/// result fits in a `u64` (and gives `None` when it does not), any other byte
/// gives `None`, and one leading `+` is skipped.
pub proof fn law_digits(d: Seq<u8>, b: u8, hex: bool)
    ensures
        ({
            let radix: nat = if hex {
                16
            } else {
                10
            };
            &&& number_digit(b, hex) ==> parse_unsigned(seq![b], radix) == Some(value_of_digit(b))
            &&& !number_digit(b, hex) ==> parse_unsigned(d.push(b), radix) is None
            &&& (number_digit(b, hex) && parse_unsigned(d, radix) is Some) ==> {
                let v = parse_unsigned(d, radix).unwrap() * radix + value_of_digit(b);
                &&& v <= u64::MAX ==> parse_unsigned(d.push(b), radix) == Some(v)
                &&& v > u64::MAX ==> parse_unsigned(d.push(b), radix) is None
            }
            &&& parse_unsigned(Seq::<u8>::empty(), radix) is None
            &&& parse_digits(seq![0x2Bu8] + d, radix) == parse_unsigned(d, radix)
            &&& (d.len() == 0 || d[0] != 0x2Bu8) ==> parse_digits(d, radix) == parse_unsigned(d, radix)
        }),
{
    let radix: nat = if hex {
        16
    } else {
        10
    };
    let e = d.push(b);
    assert(e.drop_last() =~= d);
    assert(e.last() == b);
    assert(e[e.len() - 1] == b);
    assert(seq![b].drop_last() =~= Seq::<u8>::empty());
    assert((seq![0x2Bu8] + d).drop_first() =~= d);
    if number_digit(b, hex) && parse_unsigned(d, radix) is Some {
        assert forall|i: int| 0 <= i < e.len() implies crate::token::is_radix_digit(
            #[trigger] e[i],
            radix,
        ) by {
            if i < d.len() {
                assert(e[i] == d[i]);
            }
        }
    }
    if !number_digit(b, hex) {
        assert(!crate::token::is_radix_digit(e[e.len() - 1], radix));
    }
}

/// The value of a numeral of decimal digit characters.
pub open spec fn numeral_value(cs: Seq<char>) -> int
    decreases cs.len(),
{
    if cs.len() == 0 {
        0
    } else {
        numeral_value(cs.drop_last()) * 10 + (cs.last() as int - 0x30)
    }
}

proof fn lemma_digit_char(d: nat)
    requires
        d < 10,
    ensures
        digit_char(d) as int == 0x30 + d,
{
}

/// A warning's offset is written as the plain decimal numeral of the offset:
/// digits only, no leading zero, reading back as the offset.
pub proof fn law_decimal_numeral(n: nat)
    ensures
        decimal(n).len() > 0,
        forall|i: int| 0 <= i < decimal(n).len() ==> '0' <= #[trigger] decimal(n)[i] <= '9',
        n > 0 ==> decimal(n)[0] != '0',
        numeral_value(decimal(n)) == n,
    decreases n,
{
    if n >= 10 {
        law_decimal_numeral(n / 10);
        let d = decimal(n);
        assert(d.drop_last() =~= decimal(n / 10));
        assert forall|i: int| 0 <= i < d.len() implies '0' <= #[trigger] d[i] <= '9' by {
            if i < d.len() - 1 {
                assert(d[i] == decimal(n / 10)[i]);
            }
        }
        assert(d[0] == decimal(n / 10)[0]);
        lemma_digit_char(n % 10);
        assert(d.last() == digit_char(n % 10));
        assert(numeral_value(d) == numeral_value(decimal(n / 10)) * 10 + (digit_char(n % 10) as int
            - 0x30));
        assert(n == (n / 10) * 10 + n % 10);
    } else {
        lemma_digit_char(n);
        let one = seq![digit_char(n)];
        assert(decimal(n) == one);
        assert(one.drop_last() =~= Seq::<char>::empty());
        assert(one.last() == digit_char(n));
        assert(numeral_value(Seq::<char>::empty()) == 0);
        assert(numeral_value(one) == numeral_value(one.drop_last()) * 10 + (one.last() as int
            - 0x30));
        assert(decimal(n).drop_last() =~= Seq::<char>::empty());
    }
}

} // verus!

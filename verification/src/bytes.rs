//! Byte classes of the Lua source, maximal runs of them, and cutting a `&str`
//! at byte offsets that fall on character boundaries.
use vstd::prelude::*;
use vstd::utf8::*;
use vstd::string::*;

verus! {

/// The bytes that `u8::is_ascii_whitespace` accepts: space, tab, line feed,
/// form feed and carriage return (not the vertical tab).
pub open spec fn is_space(b: u8) -> bool {
    b == 0x20u8 || b == 0x09u8 || b == 0x0Au8 || b == 0x0Cu8 || b == 0x0Du8
}

pub open spec fn is_digit(b: u8) -> bool {
    0x30u8 <= b <= 0x39u8
}

pub open spec fn is_hex_digit(b: u8) -> bool {
    is_digit(b) || (0x41u8 <= b <= 0x46u8) || (0x61u8 <= b <= 0x66u8)
}

pub open spec fn is_alpha(b: u8) -> bool {
    (0x41u8 <= b <= 0x5Au8) || (0x61u8 <= b <= 0x7Au8)
}

/// A byte that may continue an identifier: a letter, a digit or `_`.
pub open spec fn is_word(b: u8) -> bool {
    is_alpha(b) || is_digit(b) || b == 0x5Fu8
}

pub open spec fn is_ascii(b: u8) -> bool {
    b < 0x80u8
}

/// The classes of bytes whose maximal runs the lexer reads.
#[derive(Clone, Copy, PartialEq, Eq, Structural)]
pub enum Class {
    Space,
    Digit,
    HexDigit,
    Word,
}

pub open spec fn in_class(c: Class, b: u8) -> bool {
    match c {
        Class::Space => is_space(b),
        Class::Digit => is_digit(b),
        Class::HexDigit => is_hex_digit(b),
        Class::Word => is_word(b),
    }
}

/// The byte at offset `i`, or `None` past either end.
pub open spec fn byte_at(s: Seq<u8>, i: int) -> Option<u8> {
    if 0 <= i < s.len() {
        Some(s[i])
    } else {
        None
    }
}

/// Whether the byte at offset `i` exists and is a decimal digit.
pub open spec fn digit_at(s: Seq<u8>, i: int) -> bool {
    0 <= i < s.len() && is_digit(s[i])
}

/// The end of the maximal run of bytes of class `c` that starts at `i`.
pub open spec fn run_end(s: Seq<u8>, i: int, c: Class) -> int
    decreases s.len() - i,
{
    if 0 <= i < s.len() && in_class(c, s[i]) {
        run_end(s, i + 1, c)
    } else {
        i
    }
}

/// A run ends no earlier than it starts and no later than the input, holds only
/// bytes of its class, and stops at the input's end or at a byte outside it.
pub proof fn lemma_run_end(s: Seq<u8>, i: int, c: Class)
    requires
        0 <= i <= s.len(),
    ensures
        i <= run_end(s, i, c) <= s.len(),
        forall|j: int| i <= j < run_end(s, i, c) ==> in_class(c, #[trigger] s[j]),
        run_end(s, i, c) == s.len() || !in_class(c, s[run_end(s, i, c)]),
    decreases s.len() - i,
{
    if i < s.len() && in_class(c, s[i]) {
        lemma_run_end(s, i + 1, c);
    }
}

/// Every byte of every class is an ASCII byte.
pub proof fn lemma_class_ascii(c: Class, b: u8)
    requires
        in_class(c, b),
    ensures
        is_ascii(b),
{
}

pub fn space(b: u8) -> (r: bool)
    ensures
        r == is_space(b),
{
    b == 0x20u8 || b == 0x09u8 || b == 0x0Au8 || b == 0x0Cu8 || b == 0x0Du8
}

pub fn digit(b: u8) -> (r: bool)
    ensures
        r == is_digit(b),
{
    0x30u8 <= b && b <= 0x39u8
}

pub fn hex_digit(b: u8) -> (r: bool)
    ensures
        r == is_hex_digit(b),
{
    digit(b) || (0x41u8 <= b && b <= 0x46u8) || (0x61u8 <= b && b <= 0x66u8)
}

pub fn alpha(b: u8) -> (r: bool)
    ensures
        r == is_alpha(b),
{
    (0x41u8 <= b && b <= 0x5Au8) || (0x61u8 <= b && b <= 0x7Au8)
}

pub fn word(b: u8) -> (r: bool)
    ensures
        r == is_word(b),
{
    alpha(b) || digit(b) || b == 0x5Fu8
}

pub fn class_has(c: Class, b: u8) -> (r: bool)
    ensures
        r == in_class(c, b),
{
    match c {
        Class::Space => space(b),
        Class::Digit => digit(b),
        Class::HexDigit => hex_digit(b),
        Class::Word => word(b),
    }
}

/// In valid UTF-8, the offset right after an ASCII byte is a character boundary.
proof fn lemma_boundary_after_ascii(s: Seq<u8>, i: int)
    requires
        valid_utf8(s),
        0 <= i < s.len(),
        is_char_boundary(s, i),
        is_ascii(s[i]),
    ensures
        is_char_boundary(s, i + 1),
    decreases s.len(),
{
    reveal_with_fuel(is_char_boundary, 2);
    reveal_with_fuel(valid_utf8, 2);
    if i > 0 {
        let t = pop_first_scalar(s);
        let l = length_of_first_scalar(s);
        assert(t.len() == s.len() - l);
        assert(t[i - l] == s[i]);
        lemma_boundary_after_ascii(t, i - l);
    }
}

/// The offsets at which a valid UTF-8 sequence may be cut: its ends, an ASCII
/// byte, and the offset right after an ASCII byte.
pub proof fn lemma_cut(s: Seq<u8>, i: int)
    requires
        valid_utf8(s),
        0 <= i <= s.len(),
        i == 0 || i == s.len() || is_ascii(s[i]) || is_ascii(s[i - 1]),
    ensures
        is_char_boundary(s, i),
{
    is_char_boundary_start_end_of_seq(s);
    if i < s.len() && is_ascii(s[i]) {
        is_char_boundary_iff_not_is_continuation_byte(s, i);
    } else if 0 < i && is_ascii(s[i - 1]) {
        is_char_boundary_iff_not_is_continuation_byte(s, i - 1);
        lemma_boundary_after_ascii(s, i - 1);
    }
}

/// The piece `src[lo..hi]`, for offsets on character boundaries.
pub fn cut<'a>(src: &'a str, lo: usize, hi: usize) -> (r: &'a str)
    requires
        lo <= hi <= src.spec_bytes().len(),
        is_char_boundary(src.spec_bytes(), lo as int),
        is_char_boundary(src.spec_bytes(), hi as int),
    ensures
        r.spec_bytes() == src.spec_bytes().subrange(lo as int, hi as int),
{
    let ghost s = src.spec_bytes();
    proof {
        encode_utf8_valid_utf8(src@);
    }
    let (_, rest) = src.split_at(lo);
    let ghost t = rest.spec_bytes();
    proof {
        valid_utf8_split(s, lo as int);
        is_char_boundary_start_end_of_seq(t);
        if hi < s.len() {
            is_char_boundary_iff_not_is_continuation_byte(s, hi as int);
            assert(t[hi - lo] == s[hi as int]);
            is_char_boundary_iff_not_is_continuation_byte(t, hi - lo);
        }
    }
    let (mid, _) = rest.split_at(hi - lo);
    assert(mid.spec_bytes() =~= s.subrange(lo as int, hi as int));
    mid
}

} // verus!

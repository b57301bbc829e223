use replicube_tokenize::{can_tokenize, tokenize, Token, TokenKind, Warning};

fn texts(src: &str) -> Vec<String> {
    tokenize(src).0.iter().map(|t| t.text.to_string()).collect()
}

fn costs(src: &str) -> Vec<Option<usize>> {
    tokenize(src).0.iter().map(|t| t.cost()).collect()
}

fn size(src: &str) -> Option<usize> {
    tokenize(src).0.iter().map(|t| t.cost()).sum()
}

#[test]
fn readme_hex_number_example() {
    assert_eq!(size("return 0x10.10p3 + 1"), Some(6));
    assert_eq!(costs("return 0x10.10p3 + 1"), vec![Some(1), Some(3), Some(1), Some(1)]);
    assert_eq!(texts("return 0x10.10p3 + 1"), vec!["return", "0x10.10p3", "+", "1"]);
}

#[test]
fn tokens_cover_the_source_between_trivia() {
    let src = "  a = 1 -- a comment, to the end of the line\n\tb=2 -- trailing";
    assert_eq!(texts(src), vec!["a", "=", "1", "b", "=", "2"]);
    assert!(tokenize("   -- only a comment\n  ").0.is_empty());
    assert!(tokenize("").0.is_empty());
}

#[test]
fn minus_after_a_value_is_an_operator() {
    assert_eq!(texts("x-1"), vec!["x", "-", "1"]);
    assert_eq!(texts("return -1"), vec!["return", "-1"]);
    assert_eq!(texts("(-1)"), vec!["(", "-1", ")"]);
    assert_eq!(texts("a[-1]"), vec!["a", "[", "-", "1", "]"]);
    assert_eq!(texts("-.5"), vec!["-.5"]);
}

#[test]
fn string_kinds_and_escapes() {
    let (tokens, _) = tokenize(r#"x="a\"b" y='c'"#);
    assert_eq!(tokens.len(), 6);
    assert!(matches!(tokens[2].kind, TokenKind::Str(r#"a\"b"#)));
    assert!(matches!(tokens[5].kind, TokenKind::Str("c")));
    // Escapes count as raw bytes: 4 bytes of content cost 2^2.
    assert_eq!(tokens[2].cost(), Some(4));
    assert_eq!(tokens[5].cost(), Some(1));
}

#[test]
fn unterminated_string_runs_to_the_end() {
    let (tokens, _) = tokenize("x = \"abc");
    assert_eq!(tokens.len(), 3);
    assert_eq!(tokens[2].text, "\"abc");
    assert!(matches!(tokens[2].kind, TokenKind::Str("abc")));
}

#[test]
fn string_cost_is_capped() {
    let long = format!("\"{}\"", "x".repeat(100));
    assert_eq!(tokenize(&long).0[0].cost(), Some(1 << 15));
}

#[test]
fn decimal_number_costs() {
    assert_eq!(costs("0 1 7 8 15 16 17 100 1000"), vec![
        Some(1), Some(1), Some(1), Some(1), Some(1), Some(1), Some(2), Some(2), Some(4)
    ]);
    // Fraction and exponent digits add their own costs; an empty fraction costs 1.
    assert_eq!(costs("1.5 1. 2e3 2e-3"), vec![Some(2), Some(2), Some(2), Some(2)]);
    // An exponent with `+` is not taken: `e` starts a name after the number.
    assert_eq!(texts("2e+3"), vec!["2", "e", "+", "3"]);
    // Digits that overflow a u64 cost nothing.
    assert_eq!(costs("99999999999999999999"), vec![Some(0)]);
}

#[test]
fn number_parts() {
    let (tokens, _) = tokenize("0x1F.8p-2");
    assert_eq!(tokens[0].text, "0x1F.8p");
    match &tokens[0].kind {
        TokenKind::Number { is_hex, int, frac, exp } => {
            assert!(*is_hex);
            assert_eq!(*int, "1F");
            assert_eq!(*frac, Some("8"));
            assert_eq!(*exp, None);
        }
        _ => panic!("not a number"),
    }
    let (tokens, _) = tokenize("12.5e-7");
    match &tokens[0].kind {
        TokenKind::Number { is_hex, int, frac, exp } => {
            assert!(!*is_hex);
            assert_eq!(*int, "12");
            assert_eq!(*frac, Some("5"));
            assert_eq!(*exp, Some("7"));
        }
        _ => panic!("not a number"),
    }
}

#[test]
fn hex_number_costs() {
    // 0xFF: top bit 7 -> 2^(7/4) = 2.
    assert_eq!(costs("0xFF"), vec![Some(2)]);
    // 0x100: an exact power of two counts one bit lower: 2^(7/4) = 2.
    assert_eq!(costs("0x100"), vec![Some(2)]);
    // An exponent shifts the value: 0x1p8 is 2^8 -> 2^(7/4).
    assert_eq!(costs("0x1p8"), vec![Some(2)]);
    // A hexadecimal integer too large for a u64 makes the cost undetermined.
    assert_eq!(costs("0x11111111111111111"), vec![None]);
    // Without digits the value is 0.
    assert_eq!(costs("0x"), vec![Some(1)]);
}

#[test]
fn punctuation_costs() {
    assert_eq!(texts("a...b..c//d::e"), vec!["a", "...", "b", "..", "c", "//", "d", "::", "e"]);
    assert_eq!(costs(")]}"), vec![Some(0), Some(0), Some(0)]);
    assert_eq!(costs("@"), vec![None]);
    assert_eq!(costs(";"), vec![None]);
    assert_eq!(costs("~= == <= >= << >>"), vec![Some(1); 6]);
}

#[test]
fn name_after_assignment_comma_costs_by_length() {
    let (tokens, _) = tokenize("a, bcde = 1, 2");
    let t: &Token = &tokens[2];
    assert_eq!(t.text, "bcde");
    assert!(t.is_after_assignment_lhs_comma);
    assert_eq!(t.cost(), Some(4));
    // A comma that is not on an assignment's left-hand side changes nothing.
    let (tokens, _) = tokenize("f(a, bcde)");
    assert!(!tokens[4].is_after_assignment_lhs_comma);
    assert_eq!(tokens[4].cost(), Some(1));
    // `==` is a comparison, not an assignment.
    let (tokens, _) = tokenize("a, bcde == 1");
    assert!(!tokens[2].is_after_assignment_lhs_comma);
}

#[test]
fn warning_messages() {
    let (_, warnings) = tokenize("a=1;b=2");
    assert_eq!(warnings.len(), 1);
    assert!(matches!(warnings[0], Warning::Semicolon { pos: 3 }));
    assert_eq!(warnings[0].message(), "byte 3: replace `;` with whitespace or a comma");
    let (_, warnings) = tokenize("({2, [3]=4})[y]");
    assert!(matches!(warnings[0], Warning::WhitespaceBetweenCommaAndBracket { pos: 3 }));
    assert_eq!(
        warnings[0].message(),
        "byte 3: whitespace between `,` and `[` wastes a token; write `,[` instead"
    );
    let w = Warning::Semicolon { pos: 1234567 };
    assert_eq!(w.message(), "byte 1234567: replace `;` with whitespace or a comma");
}

#[test]
fn no_warnings_without_semicolon_or_spaced_bracket() {
    assert!(tokenize("a=1 b={1,2,[3]=4}").1.is_empty());
    assert_eq!(tokenize("a=1; b=2; c=3;").1.len(), 3);
}

#[test]
fn non_ascii_text_outside_strings_cannot_be_tokenized() {
    assert!(can_tokenize("x = \"héllo\" -- ça va\n"));
    assert!(can_tokenize("return x + 1"));
    assert!(!can_tokenize("x = é"));
    let (tokens, _) = tokenize("x = \"héllo\"");
    assert!(matches!(tokens[2].kind, TokenKind::Str("héllo")));
    // Content bytes are counted, not characters: 6 bytes cost 2^3.
    assert_eq!(tokens[2].cost(), Some(8));
}

#[test]
fn comma_before_bracket_is_one_token_only_when_adjacent() {
    assert_eq!(texts("t={a,[b]=1}"), vec!["t", "=", "{", "a", ",[", "b", "]", "=", "1", "}"]);
    assert_eq!(texts("t={a, [b]=1}"), vec!["t", "=", "{", "a", ",", "[", "b", "]", "=", "1", "}"]);
    let (tokens, _) = tokenize("a,[b]");
    assert!(matches!(tokens[1].kind, TokenKind::CommaOpenBracket));
    assert_eq!(tokens[1].cost(), Some(1));
}

fn number(int: &'static str, is_hex: bool) -> Token<'static> {
    Token {
        text: int,
        is_after_assignment_lhs_comma: false,
        kind: TokenKind::Number { is_hex, int, frac: None, exp: None },
    }
}

#[test]
fn digits_read_as_from_str_radix_reads_them() {
    // One leading `+` is accepted before the digits.
    assert_eq!(number("+5", false).cost(), Some(1));
    assert_eq!(number("+5", true).cost(), Some(1));
    assert_eq!(number("+100", false).cost(), Some(2));
    // A lone `+`, two signs or a `-` are not digits.
    assert_eq!(number("+", false).cost(), Some(0));
    assert_eq!(number("+", true).cost(), None);
    assert_eq!(number("++5", true).cost(), None);
    assert_eq!(number("-5", true).cost(), None);
}

#[test]
fn warnings_point_at_their_tokens_in_order() {
    let src = "a=1; t={b, -- c\n [2]=3};";
    let (tokens, warnings) = tokenize(src);
    let positions: Vec<usize> = warnings
        .iter()
        .map(|w| match w {
            Warning::Semicolon { pos } | Warning::WhitespaceBetweenCommaAndBracket { pos } => *pos,
        })
        .collect();
    assert_eq!(positions, vec![3, 9, 23]);
    assert!(matches!(warnings[1], Warning::WhitespaceBetweenCommaAndBracket { .. }));
    assert_eq!(&src[3..4], ";");
    assert_eq!(&src[9..10], ",");
    assert!(warnings.len() <= tokens.len());
}

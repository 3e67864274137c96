use pattern_parse::data::{TMeta, Token};
use pattern_parse::pattern::MatchError;
use pattern_parse::tokenizer::{annotate, lex, lex_classified, tokenize, tokenize_classified, CharInfo, Lexeme};

fn number_of(input: &str) -> Result<(usize, usize, f64), MatchError> {
    let output = lex(input)?;
    assert_eq!(output.len(), 1);
    let (start, end, text) = match &output[0] {
        Lexeme::Token(Token::Number(m, n)) => (m.start, m.end, n.clone()),
        _ => panic!("not number"),
    };
    Ok((start, end, text.parse::<f64>().unwrap()))
}

fn check_number(input: &str, expected: f64) -> Result<(), MatchError> {
    let (start, end, value) = number_of(input)?;
    assert_eq!(start, 0);
    assert_eq!(end, input.len() - 1);
    assert_eq!(value, expected);
    Ok(())
}

#[test]
fn array_pattern_blarg() -> Result<(), MatchError> {
    let output = tokenize("->")?;
    assert!(matches!(output[0], Token::SRArrow(_)), "{:?}", output[0]);
    Ok(())
}

#[test]
fn should_parse_comment() -> Result<(), MatchError> {
    let input = "#this is a comment
        blah";
    let output = lex(input)?;
    assert_eq!(output.len(), 3);
    assert!(matches!(output[0], Lexeme::Junk));
    Ok(())
}

#[test]
fn should_parse_whitespace() -> Result<(), MatchError> {
    let input = "      \n\t\rfalse";
    let output = lex(input)?;
    assert_eq!(output.len(), 2);
    assert!(matches!(output[0], Lexeme::Junk));
    Ok(())
}

#[test]
fn should_parse_string() -> Result<(), MatchError> {
    fn t(input: &str, expected: &str) -> Result<(), MatchError> {
        let output = lex(input)?;
        assert_eq!(output.len(), 1);
        let (start, end, value) = match &output[0] {
            Lexeme::Token(Token::String(m, n)) => (m.start, m.end, n.clone()),
            _ => panic!("not string"),
        };
        assert_eq!(start, 0);
        assert_eq!(end, input.len() - 1);
        assert_eq!(value, expected);
        Ok(())
    }

    t(r#""string input""#, "string input")?;
    t(r#""string \n input""#, "string \n input")?;
    t(r#""string \r input""#, "string \r input")?;
    t(r#""string \0 input""#, "string \0 input")?;
    t(r#""string \t input""#, "string \t input")?;
    t(r#""string \\ input""#, "string \\ input")?;
    t(r#""string \" input""#, "string \" input")?;
    Ok(())
}

#[test]
fn should_parse_zero() -> Result<(), MatchError> {
    check_number("0", 0.0)
}

#[test]
fn should_parse_zero_point_zero() -> Result<(), MatchError> {
    check_number("0.0", 0.0)
}

#[test]
fn should_parse_negative() -> Result<(), MatchError> {
    check_number("-1", -1.0)
}

#[test]
fn should_parse_plus() -> Result<(), MatchError> {
    check_number("+1", 1.0)
}

#[test]
fn should_parse_sci_not_big_e() -> Result<(), MatchError> {
    check_number("1E1", 1E1)
}

#[test]
fn should_parse_sci_not_little_e() -> Result<(), MatchError> {
    check_number("1e1", 1e1)
}

#[test]
fn should_parse_plus_one() -> Result<(), MatchError> {
    check_number("+1.0", 1.0)
}

#[test]
fn should_parse_neg_one() -> Result<(), MatchError> {
    check_number("-1.0", -1.0)
}

#[test]
fn should_parse_sci_not_plus_big_e() -> Result<(), MatchError> {
    check_number("1E+1", 1E+1)
}

#[test]
fn should_parse_sci_not_plus_little_e() -> Result<(), MatchError> {
    check_number("1e+1", 1e+1)
}

#[test]
fn should_parse_decimal() -> Result<(), MatchError> {
    check_number("1234.5678", 1234.5678)
}

#[test]
fn should_parse_decimal_with_sci_not_neg_big_e() -> Result<(), MatchError> {
    check_number("1234.5678E-90", 1234.5678E-90)
}

#[test]
fn should_parse_decimal_with_sci_not_neg_little_e() -> Result<(), MatchError> {
    check_number("1234.5678e-90", 1234.5678e-90)
}

#[test]
fn should_parse_decimal_with_sci_not_neg_little_e_901() -> Result<(), MatchError> {
    check_number("1234.5678e-901", 1234.5678e-901)
}

#[test]
fn should_parse_number() -> Result<(), MatchError> {
    check_number("1234", 1234.0)
}

fn symbol_of(input: &str, lower: bool) -> Result<(), MatchError> {
    let output = lex(input)?;
    assert_eq!(output.len(), 1);
    let (start, end, name) = match (&output[0], lower) {
        (Lexeme::Token(Token::LowerSymbol(m, n)), true) => (m.start, m.end, n.clone()),
        (Lexeme::Token(Token::UpperSymbol(m, n)), false) => (m.start, m.end, n.clone()),
        _ => panic!("not the expected symbol"),
    };
    assert_eq!(start, 0);
    assert_eq!(end, input.len() - 1);
    assert_eq!(name, input);
    Ok(())
}

#[test]
fn should_parse_boolean_starting_lower_symbol() -> Result<(), MatchError> {
    symbol_of("false_", true)
}

#[test]
fn should_parse_lower_symbol() -> Result<(), MatchError> {
    symbol_of("lower_symbol", true)
}

#[test]
fn should_parse_single_lower_symbol() -> Result<(), MatchError> {
    symbol_of("l", true)
}

#[test]
fn should_parse_upper_symbol() -> Result<(), MatchError> {
    symbol_of("UpperSymbol", false)
}

#[test]
fn should_parse_single_upper_symbol() -> Result<(), MatchError> {
    symbol_of("U", false)
}

#[test]
fn arrow_is_one_token_spanning_both_characters() -> Result<(), MatchError> {
    let output = tokenize("->")?;
    assert_eq!(output.len(), 1);
    assert_eq!(output[0].meta(), TMeta { start: 0, end: 1 });
    Ok(())
}

#[test]
fn comments_and_whitespace_give_no_tokens() -> Result<(), MatchError> {
    let output = tokenize("#comment\n  true")?;
    assert_eq!(output.len(), 1);
    match &output[0] {
        Token::LowerSymbol(m, n) => {
            assert_eq!(n, "true");
            assert_eq!((m.start, m.end), (11, 14));
        }
        _ => panic!("not lower symbol"),
    }
    Ok(())
}

#[test]
fn exponent_text_is_kept_in_canonical_form() -> Result<(), MatchError> {
    let output = tokenize("-12.50E+3")?;
    match &output[0] {
        Token::Number(m, n) => {
            assert_eq!(n, "-12.50e+3");
            assert_eq!((m.start, m.end), (0, 8));
        }
        _ => panic!("not number"),
    }
    Ok(())
}

#[test]
fn punctuation_and_symbols() -> Result<(), MatchError> {
    let output = tokenize("(a, B) { } <- <= => : . < >")?;
    let kinds: Vec<String> = output.iter().map(|t| format!("{:?}", t.kind())).collect();
    assert_eq!(
        kinds,
        vec![
            "LParen", "LowerSymbol", "Comma", "UpperSymbol", "RParen", "LCurl", "RCurl", "SLArrow", "DLArrow", "DRArrow",
            "Colon", "Dot", "LAngle", "RAngle"
        ]
    );
    Ok(())
}

#[test]
fn dot_without_digits_after_it_is_fatal() {
    assert!(matches!(tokenize("1."), Err(MatchError::FatalEndOfFile)));
    assert!(matches!(tokenize("1.x"), Err(MatchError::Fatal(2))));
}

#[test]
fn exponent_without_digits_is_fatal() {
    assert!(matches!(tokenize("1e+"), Err(MatchError::FatalEndOfFile)));
    assert!(matches!(tokenize("2Ex"), Err(MatchError::Fatal(2))));
}

#[test]
fn unknown_escape_is_fatal() {
    assert!(matches!(tokenize(r#""a\q""#), Err(MatchError::Fatal(3))));
}

#[test]
fn unclosed_string_is_an_error_at_its_quote() {
    assert!(matches!(tokenize("\"abc"), Err(MatchError::Error(0))));
}

#[test]
fn comment_needs_its_line_end() {
    assert!(matches!(lex("#x"), Err(MatchError::Error(0))));
}

#[test]
fn unknown_character_is_an_error_at_its_byte_offset() {
    assert!(matches!(lex("é@"), Err(MatchError::Error(1))));
    assert!(matches!(tokenize("é@"), Err(MatchError::Error(2))));
}

#[test]
fn spans_are_byte_offsets() -> Result<(), MatchError> {
    let output = tokenize("é Ab")?;
    match &output[1] {
        Token::UpperSymbol(m, n) => {
            assert_eq!(n, "Ab");
            assert_eq!((m.start, m.end), (3, 4));
        }
        _ => panic!("not upper symbol"),
    }
    Ok(())
}

#[test]
fn empty_input_has_no_tokens() -> Result<(), MatchError> {
    assert_eq!(tokenize("")?.len(), 0);
    assert_eq!(tokenize("   ")?.len(), 0);
    Ok(())
}

#[test]
fn annotate_records_offsets_and_properties() {
    let cs = annotate("a É\t");
    assert_eq!(cs.len(), 4);
    assert_eq!(cs[0], CharInfo { offset: 0, ch: 'a', whitespace: false, lowercase: true, uppercase: false, alphanumeric: true });
    assert!(cs[1].whitespace);
    assert_eq!(cs[2].offset, 2);
    assert!(cs[2].uppercase && !cs[2].lowercase);
    assert_eq!(cs[3].offset, 4);
    assert!(cs[3].whitespace);
}

#[test]
fn classified_characters_decide_the_symbol_classes() -> Result<(), MatchError> {
    let plain = |offset: usize, ch: char| CharInfo {
        offset,
        ch,
        whitespace: false,
        lowercase: false,
        uppercase: false,
        alphanumeric: false,
    };
    // a character marked upper-case starts an upper symbol, whatever it is
    let mut x = plain(0, 'x');
    x.uppercase = true;
    let tokens = tokenize_classified(&vec![x])?;
    assert!(matches!(&tokens[0], Token::UpperSymbol(_, n) if n == "x"));
    // unmarked letters are no symbol at all
    assert!(matches!(tokenize_classified(&vec![plain(0, 'x')]), Err(MatchError::Error(0))));
    assert!(matches!(lex_classified(&vec![plain(7, 'x')]), Err(MatchError::Error(0))));
    assert!(matches!(tokenize_classified(&vec![plain(7, 'x')]), Err(MatchError::Error(7))));
    Ok(())
}

#[test]
fn upper_symbol_goes_on_with_underscore() -> Result<(), MatchError> {
    let output = tokenize("A_b")?;
    assert_eq!(output.len(), 1);
    match &output[0] {
        Token::UpperSymbol(m, n) => {
            assert_eq!(n, "A_b");
            assert_eq!((m.start, m.end), (0, 2));
        }
        other => panic!("expected one upper symbol, found {:?}", other),
    }
    Ok(())
}

use saba_core::error::Error;
use saba_core::renderer::css::token::{CssNumber, CssToken, CssTokenizer};

// The value of a number as the scanner of double precision would build it:
// digits before the point accumulate, each digit behind it is scaled by a
// factor that shrinks by a tenth.
fn as_f64(n: &CssNumber) -> f64 {
    let digits = n.digits();
    let whole = digits.len() - n.scale();
    let mut num = 0f64;
    let mut floating_digit = 1f64;
    for (i, d) in digits.iter().enumerate() {
        if i < whole {
            num = num * 10.0 + (*d as f64);
        } else {
            floating_digit *= 1f64 / 10f64;
            num += (*d as f64) * floating_digit;
        }
    }
    num
}

fn number(digits: &[u8], scale: usize) -> CssToken {
    CssToken::Number(CssNumber::new(digits.to_vec(), scale).unwrap())
}

fn ident(s: &str) -> CssToken {
    CssToken::Ident(s.to_string())
}

fn all_tokens(style: &str) -> Vec<CssToken> {
    let mut t = CssTokenizer::new(style.to_string());
    let mut out = Vec::new();
    while let Some(token) = t.next().unwrap() {
        out.push(token);
    }
    assert_eq!(Ok(None), t.next());
    out
}

#[test]
fn empty_style_sheet_has_no_token() {
    let style = "".to_string();
    let mut t = CssTokenizer::new(style);
    assert!(t.next().unwrap().is_none());
}

#[test]
fn test_one_rule() {
    let style = "p { color: red; }".to_string();
    let mut t = CssTokenizer::new(style);
    let expected = [
        CssToken::Ident("p".to_string()),
        CssToken::OpenCurly,
        CssToken::Ident("color".to_string()),
        CssToken::Colon,
        CssToken::Ident("red".to_string()),
        CssToken::SemiColon,
        CssToken::CloseCurly,
    ];
    for e in expected {
        assert_eq!(Ok(Some(e.clone())), t.next());
    }
    assert!(t.next().unwrap().is_none());
}

#[test]
fn test_id_selector() {
    let style = "#id { color: red; }".to_string();
    let mut t = CssTokenizer::new(style);
    let expected = [
        CssToken::HashToken("#id".to_string()),
        CssToken::OpenCurly,
        CssToken::Ident("color".to_string()),
        CssToken::Colon,
        CssToken::Ident("red".to_string()),
        CssToken::SemiColon,
        CssToken::CloseCurly,
    ];
    for e in expected {
        assert_eq!(Ok(Some(e.clone())), t.next());
    }
    assert!(t.next().unwrap().is_none());
}

#[test]
fn test_class_selector() {
    let style = ".class { color: red; }".to_string();
    let mut t = CssTokenizer::new(style);
    let expected = [
        CssToken::Delim('.'),
        CssToken::Ident("class".to_string()),
        CssToken::OpenCurly,
        CssToken::Ident("color".to_string()),
        CssToken::Colon,
        CssToken::Ident("red".to_string()),
        CssToken::SemiColon,
        CssToken::CloseCurly,
    ];
    for e in expected {
        assert_eq!(Ok(Some(e.clone())), t.next());
    }
    assert!(t.next().unwrap().is_none());
}

#[test]
fn test_multiple_rules() {
    let style = "p { content: \"Hey\"; } h1 { font-size: 40; color: blue; }".to_string();
    let mut t = CssTokenizer::new(style);
    let expected = [
        CssToken::Ident("p".to_string()),
        CssToken::OpenCurly,
        CssToken::Ident("content".to_string()),
        CssToken::Colon,
        CssToken::StringToken("Hey".to_string()),
        CssToken::SemiColon,
        CssToken::CloseCurly,
        CssToken::Ident("h1".to_string()),
        CssToken::OpenCurly,
        CssToken::Ident("font-size".to_string()),
        CssToken::Colon,
        number(&[4, 0], 0),
        CssToken::SemiColon,
        CssToken::Ident("color".to_string()),
        CssToken::Colon,
        CssToken::Ident("blue".to_string()),
        CssToken::SemiColon,
        CssToken::CloseCurly,
    ];

    for (i, expected_token) in expected.iter().enumerate() {
        let actual_token = t.next().unwrap();
        if let Some(CssToken::Number(n)) = &actual_token {
            assert_eq!(40.0, as_f64(n));
        }
        assert_eq!(
            Some(expected_token.clone()),
            actual_token,
            "Token mismatch at position {}: expected {:?}, got {:?}",
            i,
            expected_token,
            actual_token
        );
    }
    assert!(t.next().unwrap().is_none(), "Expected no more tokens");
}

#[test]
fn the_number_40_appears_once() {
    let tokens = all_tokens("h1 { font-size: 40; color: blue; }");
    let numbers: Vec<f64> = tokens
        .iter()
        .filter_map(|t| match t {
            CssToken::Number(n) => Some(as_f64(n)),
            _ => None,
        })
        .collect();
    assert_eq!(vec![40.0], numbers);
}

#[test]
fn punctuation() {
    assert_eq!(
        vec![
            CssToken::OpenParenthesis,
            CssToken::CloseParenthesis,
            CssToken::Delim(','),
            CssToken::Delim('.'),
            CssToken::Colon,
            CssToken::SemiColon,
            CssToken::OpenCurly,
            CssToken::CloseCurly,
        ],
        all_tokens("( ) , . : ; { }\n")
    );
}

#[test]
fn numbers_keep_their_digits_and_their_scale() {
    assert_eq!(vec![number(&[1, 2, 5], 2)], all_tokens("1.25"));
    assert_eq!(vec![number(&[0, 5], 1)], all_tokens("0.5"));
    assert_eq!(vec![number(&[5], 0)], all_tokens("5."));
    assert_eq!(vec![number(&[0, 0, 7], 0)], all_tokens("007"));
    assert_eq!(vec![number(&[1, 2, 3], 2)], all_tokens("1.2.3"));
    assert_eq!(vec![number(&[1, 0], 0), ident("px")], all_tokens("10px"));
    assert_eq!(vec![CssToken::Delim('.'), number(&[5], 0)], all_tokens(".5"));
}

#[test]
fn numbers_convert_to_the_nearest_double() {
    for (text, value) in [
        ("0", 0.0),
        ("40", 40.0),
        ("1.5", 1.5),
        ("0.25", 0.25),
        ("123456789012345", 123456789012345.0),
        ("3.14159", 3.14159),
        ("1.2.3", 1.23),
    ] {
        match &all_tokens(text)[..] {
            [CssToken::Number(n)] => {
                let got = as_f64(n);
                assert!((got - value).abs() <= value.abs() * 4.0 * f64::EPSILON, "{}", text);
            }
            other => panic!("{:?}", other),
        }
    }
}

#[test]
fn number_is_refused_when_it_is_not_well_formed() {
    assert!(CssNumber::new(vec![1, 10], 0).is_none());
    assert!(CssNumber::new(vec![1, 2], 3).is_none());
    let n = CssNumber::new(vec![1, 2], 2).unwrap();
    assert_eq!(&vec![1u8, 2u8], n.digits());
    assert_eq!(2, n.scale());
}

#[test]
fn strings_in_both_quotes() {
    assert_eq!(
        vec![
            CssToken::StringToken("a'b".to_string()),
            CssToken::StringToken("c\"d".to_string()),
            CssToken::StringToken("".to_string()),
        ],
        all_tokens("\"a'b\" 'c\"d' ''")
    );
}

#[test]
fn unterminated_string_runs_to_the_end() {
    assert_eq!(vec![CssToken::StringToken("abc }".to_string())], all_tokens("\"abc }"));
}

#[test]
fn identifiers_and_hashes() {
    assert_eq!(
        vec![
            ident("-moz-x"),
            ident("_a1"),
            ident("B-c_d"),
            CssToken::HashToken("#f0f0f0".to_string()),
            CssToken::HashToken("#".to_string()),
        ],
        all_tokens("-moz-x _a1 B-c_d #f0f0f0 #")
    );
    assert_eq!(vec![ident("a")], all_tokens("a"));
}

#[test]
fn at_keyword_body_runs_between_two_occurrences_of_its_first_letter() {
    // The body is read like a string whose quote is the first letter.
    assert_eq!(
        vec![CssToken::AtKeyword("edia scr".to_string()), ident("meen")],
        all_tokens("@media scrmeen")
    );
    assert_eq!(vec![CssToken::AtKeyword("bc".to_string())], all_tokens("@abc"));
    assert_eq!(vec![CssToken::AtKeyword("bcd".to_string())], all_tokens("@abcd"));
}

#[test]
fn at_sign_without_three_letters_and_more_is_a_delimiter() {
    assert_eq!(vec![CssToken::Delim('@'), ident("ab")], all_tokens("@ab"));
    assert_eq!(vec![CssToken::Delim('@'), ident("abc")], all_tokens("@ abc"));
    assert_eq!(
        vec![CssToken::Delim('@'), number(&[1], 0), ident("ab")],
        all_tokens("@1ab")
    );
    assert_eq!(vec![CssToken::Delim('@')], all_tokens("@"));
}

#[test]
fn unsupported_character_is_refused_and_not_skipped() {
    let mut t = CssTokenizer::new("a !b".to_string());
    assert_eq!(Ok(Some(ident("a"))), t.next());
    let refused = Err(Error::UnexpectedInput("char ! is not supported yet".to_string()));
    assert_eq!(refused, t.next());
    assert_eq!(refused, t.next());
    let mut t = CssTokenizer::new("\t".to_string());
    assert_eq!(
        Err(Error::UnexpectedInput("char \t is not supported yet".to_string())),
        t.next()
    );
}

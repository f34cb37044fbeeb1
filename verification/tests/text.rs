use saba_core::renderer::css::token::is_ident_char;
use saba_core::renderer::html::attribute::{duplicate_attributes, Attribute};
use saba_core::renderer::html::token::{commit, HTMLToken};
use saba_core::renderer::js::token::is_whitespace;
use saba_core::text::{
    chars_of, digit_value, is_ascii_alphabetic, is_ascii_digit, str_eq, to_ascii_lowercase,
};

#[test]
fn character_classes_agree_with_the_standard_library() {
    for code in 0u32..0x800 {
        let c = char::from_u32(code).unwrap();
        assert_eq!(c.is_ascii_alphabetic(), is_ascii_alphabetic(c), "{:?}", c);
        assert_eq!(c.is_ascii_digit(), is_ascii_digit(c), "{:?}", c);
        assert_eq!(c.to_ascii_lowercase(), to_ascii_lowercase(c), "{:?}", c);
        assert_eq!(c.is_ascii_whitespace(), is_whitespace(c), "{:?}", c);
        assert_eq!(
            c.is_ascii_alphanumeric() || c == '-' || c == '_',
            is_ident_char(c),
            "{:?}",
            c
        );
    }
    assert_eq!('é', to_ascii_lowercase('é'));
    assert_eq!('É', to_ascii_lowercase('É'));
}

#[test]
fn digit_values() {
    for (i, c) in "0123456789".chars().enumerate() {
        assert_eq!(i as u8, digit_value(c));
    }
}

#[test]
fn chars_of_keeps_every_character() {
    assert_eq!(vec!['a', 'é', '✓', ' ', '<'], chars_of("aé✓ <"));
    assert_eq!(Vec::<char>::new(), chars_of(""));
}

#[test]
fn string_equality() {
    assert!(str_eq("html", "html"));
    assert!(str_eq("", ""));
    assert!(!str_eq("html", "head"));
    assert!(!str_eq("p", "pp"));
    assert!(!str_eq("P", "p"));
}

#[test]
fn attributes_are_built_character_by_character() {
    let mut a = Attribute::new();
    assert_eq!("", a.name());
    assert_eq!("", a.value());
    assert!(!a.has_name());
    a.add_char('v', false);
    assert!(!a.has_name());
    a.add_char('n', true);
    a.add_char('m', true);
    assert!(a.has_name());
    assert_eq!("nm", a.name());
    assert_eq!("v", a.value());
    let b = a.duplicate();
    assert_eq!(a, b);
    assert_eq!(vec![a.clone(), b], duplicate_attributes(&vec![a.clone(), a]));
}

#[test]
fn commit_drops_attributes_without_a_name() {
    let mut named = Attribute::new();
    named.add_char('a', true);
    let mut unnamed = Attribute::new();
    unnamed.add_char('x', false);
    let token = HTMLToken::StartTag {
        tag: "p".to_string(),
        self_closing: true,
        attributes: vec![unnamed.clone(), named.clone(), unnamed, named.clone()],
    };
    assert_eq!(
        HTMLToken::StartTag {
            tag: "p".to_string(),
            self_closing: true,
            attributes: vec![named.clone(), named],
        },
        commit(token)
    );
    assert_eq!(HTMLToken::Char('c'), commit(HTMLToken::Char('c')));
    assert_eq!(HTMLToken::Eof, commit(HTMLToken::Eof));
    assert_eq!(
        HTMLToken::EndTag { tag: "p".to_string() },
        commit(HTMLToken::EndTag { tag: "p".to_string() })
    );
}

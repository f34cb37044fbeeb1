use saba_core::renderer::css::token::CssTokenizer;
use saba_core::renderer::html::attribute::Attribute;
use saba_core::renderer::html::token::{HTMLToken, HtmlTokenizer};

fn chars(text: &str) -> Vec<HTMLToken> {
    text.chars().map(HTMLToken::Char).collect()
}

// Every token up to the end of the sequence, `Eof` included.
fn drain(tokenizer: &mut HtmlTokenizer) -> Vec<HTMLToken> {
    let mut out = Vec::new();
    while let Some(t) = tokenizer.next() {
        out.push(t);
    }
    assert_eq!(None, tokenizer.next());
    assert_eq!(None, tokenizer.next());
    out
}

// The tokens of a text that is not empty, without the `Eof` that ends them.
fn before_eof(mut tokens: Vec<HTMLToken>) -> Vec<HTMLToken> {
    assert_eq!(Some(HTMLToken::Eof), tokens.pop());
    assert!(!tokens.contains(&HTMLToken::Eof));
    tokens
}

fn all_tokens(html: &str) -> Vec<HTMLToken> {
    assert!(!html.is_empty());
    before_eof(drain(&mut HtmlTokenizer::new(html.to_string())))
}

fn script_tokens(script: &str) -> Vec<HTMLToken> {
    let mut tokenizer = HtmlTokenizer::new(script.to_string());
    tokenizer.enter_script_data();
    before_eof(drain(&mut tokenizer))
}

fn start(tag: &str, self_closing: bool, attributes: Vec<Attribute>) -> HTMLToken {
    HTMLToken::StartTag { tag: tag.to_string(), self_closing, attributes }
}

fn end(tag: &str) -> HTMLToken {
    HTMLToken::EndTag { tag: tag.to_string() }
}

fn attr(name: &str, value: &str) -> Attribute {
    let mut a = Attribute::new();
    for c in name.chars() {
        a.add_char(c, true);
    }
    for c in value.chars() {
        a.add_char(c, false);
    }
    a
}

#[test]
fn token_test_empty() {
    let html = "".to_string();
    let mut tokenizer = HtmlTokenizer::new(html);
    assert!(tokenizer.next().is_none());

    let style = "".to_string();
    let mut t = CssTokenizer::new(style);
    assert!(t.next().unwrap().is_none());
}

#[test]
fn test_start_and_end_tag() {
    let html = "<body></body>".to_string();
    let mut tokenizer = HtmlTokenizer::new(html);
    let expected = [
        HTMLToken::StartTag {
            tag: "body".to_string(),
            self_closing: false,
            attributes: Vec::new(),
        },
        HTMLToken::EndTag {
            tag: "body".to_string(),
        },
    ];

    for e in expected {
        assert_eq!(Some(e), tokenizer.next());
    }
}

#[test]
fn test_attributes() {
    let html = "<p class=\"A\" id='B' foo=bar></p>".to_string();
    let mut tokenizer = HtmlTokenizer::new(html);

    let mut attr1 = Attribute::new();
    attr1.add_char('c', true);
    attr1.add_char('l', true);
    attr1.add_char('a', true);
    attr1.add_char('s', true);
    attr1.add_char('s', true);
    attr1.add_char('A', false);

    let mut attr2 = Attribute::new();
    attr2.add_char('i', true);
    attr2.add_char('d', true);
    attr2.add_char('B', false);

    let mut attr3 = Attribute::new();
    attr3.add_char('f', true);
    attr3.add_char('o', true);
    attr3.add_char('o', true);
    attr3.add_char('b', false);
    attr3.add_char('a', false);
    attr3.add_char('r', false);

    let expected = [
        HTMLToken::StartTag {
            tag: "p".to_string(),
            self_closing: false,
            attributes: vec![attr1, attr2, attr3],
        },
        HTMLToken::EndTag {
            tag: "p".to_string(),
        },
    ];

    for e in expected {
        assert_eq!(Some(e), tokenizer.next());
    }
}

#[test]
fn test_self_closing_tag() {
    let html = "<img />".to_string();
    let mut tokenizer = HtmlTokenizer::new(html);
    let expected = [HTMLToken::StartTag {
        tag: "img".to_string(),
        self_closing: true,
        attributes: Vec::new(),
    }];

    for e in expected {
        assert_eq!(Some(e), tokenizer.next());
    }
}

#[test]
fn test_script_tag() {
    let html = "<script>js code</script>".to_string();
    let mut tokenizer = HtmlTokenizer::new(html);
    let expected = [
        HTMLToken::StartTag {
            tag: "script".to_string(),
            self_closing: false,
            attributes: Vec::new(),
        },
        HTMLToken::Char('j'),
        HTMLToken::Char('s'),
        HTMLToken::Char(' '),
        HTMLToken::Char('c'),
        HTMLToken::Char('o'),
        HTMLToken::Char('d'),
        HTMLToken::Char('e'),
        HTMLToken::EndTag {
            tag: "script".to_string(),
        },
    ];
    for e in expected {
        assert_eq!(Some(e), tokenizer.next());
    }
}

#[test]
fn sequence_ends_after_the_last_token() {
    let mut tokenizer = HtmlTokenizer::new("<body></body>".to_string());
    assert_eq!(Some(start("body", false, Vec::new())), tokenizer.next());
    assert_eq!(Some(end("body")), tokenizer.next());
    assert_eq!(Some(HTMLToken::Eof), tokenizer.next());
    assert_eq!(None, tokenizer.next());
    assert_eq!(None, tokenizer.next());
}

#[test]
fn eof_comes_once_behind_the_last_token() {
    let mut tokenizer = HtmlTokenizer::new("a".to_string());
    assert_eq!(Some(HTMLToken::Char('a')), tokenizer.next());
    assert_eq!(Some(HTMLToken::Eof), tokenizer.next());
    assert_eq!(None, tokenizer.next());
    assert_eq!(
        vec![HTMLToken::Char('h'), HTMLToken::Char('i'), HTMLToken::Eof],
        drain(&mut HtmlTokenizer::new("hi".to_string()))
    );
    assert_eq!(
        vec![start("p", false, Vec::new()), HTMLToken::Eof],
        drain(&mut HtmlTokenizer::new("<p>".to_string()))
    );
}

#[test]
fn empty_text_has_no_token_in_any_state() {
    assert_eq!(Vec::<HTMLToken>::new(), drain(&mut HtmlTokenizer::new(String::new())));
    let mut tokenizer = HtmlTokenizer::new(String::new());
    tokenizer.enter_script_data();
    assert_eq!(Vec::<HTMLToken>::new(), drain(&mut tokenizer));
}

#[test]
fn plain_text_is_one_char_token_per_character() {
    assert_eq!(chars("hello, world"), all_tokens("hello, world"));
    let mut expected = vec![start("p", false, Vec::new())];
    expected.extend(chars("a > b"));
    assert_eq!(expected, all_tokens("<p>a > b"));
}

#[test]
fn tag_names_are_lowercased() {
    assert_eq!(
        vec![start("body", false, Vec::new()), end("body")],
        all_tokens("<BoDy></BODY>")
    );
    assert_eq!(vec![start("h1", false, Vec::new())], all_tokens("<H1>"));
}

#[test]
fn attribute_names_are_lowercased_and_values_kept() {
    assert_eq!(
        vec![start("a", false, vec![attr("href", "X.Html")])],
        all_tokens("<a HREF=X.Html>")
    );
}

#[test]
fn attribute_without_value_and_spaces_around_equals() {
    assert_eq!(
        vec![start("p", false, vec![attr("hidden", ""), attr("id", "x")])],
        all_tokens("<p hidden id = \"x\">")
    );
}

#[test]
fn self_closing_tag_with_attribute() {
    assert_eq!(
        vec![start("img", true, vec![attr("src", "a.png")])],
        all_tokens("<img src='a.png'/>")
    );
}

#[test]
fn input_that_ends_inside_a_tag_yields_eof_once() {
    for html in ["<p", "<", "</", "<p class", "<p class=", "<p class=\"x", "<p /"] {
        assert_eq!(
            vec![HTMLToken::Eof],
            drain(&mut HtmlTokenizer::new(html.to_string())),
            "{}",
            html
        );
    }
    assert_eq!(
        vec![HTMLToken::Char('a'), HTMLToken::Eof],
        drain(&mut HtmlTokenizer::new("a<p class=\"x".to_string()))
    );
}

#[test]
fn character_to_be_read_again_is_not_lost_at_the_end() {
    // `<` before a character that opens no tag: the character is read again as text.
    assert_eq!(chars("1"), all_tokens("<1"));
    assert_eq!(chars("<a"), script_tokens("<a"));
    assert_eq!(chars("<1"), script_tokens("</1"));
    let mut tokenizer = HtmlTokenizer::new("<a".to_string());
    tokenizer.enter_script_data();
    assert_eq!(Some(HTMLToken::Char('<')), tokenizer.next());
    assert_eq!(Some(HTMLToken::Char('a')), tokenizer.next());
    assert_eq!(Some(HTMLToken::Eof), tokenizer.next());
    assert_eq!(None, tokenizer.next());
}

#[test]
fn characters_held_back_are_flushed_at_the_end() {
    assert_eq!(chars("</a "), script_tokens("</a "));
    assert_eq!(chars("</ab-"), script_tokens("</ab-"));
    assert_eq!(chars("x</a y"), script_tokens("x</a y"));
    let mut expected = chars("</a <");
    expected.push(end("b"));
    assert_eq!(expected, script_tokens("</a <</b>"));
}

#[test]
fn less_than_before_a_non_letter_is_dropped_and_the_character_kept() {
    assert_eq!(chars("1 2"), all_tokens("<1 2"));
}

#[test]
fn attributes_of_an_end_tag_are_ignored() {
    assert_eq!(vec![end("p")], all_tokens("</p class=x>"));
    assert_eq!(vec![end("p")], all_tokens("</p/>"));
}

#[test]
fn script_data_hands_out_markup_as_text() {
    let mut tokenizer = HtmlTokenizer::new("<script>a<b</script>".to_string());
    assert_eq!(Some(start("script", false, Vec::new())), tokenizer.next());
    tokenizer.enter_script_data();
    let mut expected = chars("a<b");
    expected.push(end("script"));
    assert_eq!(expected, before_eof(drain(&mut tokenizer)));
}

#[test]
fn script_data_flushes_a_broken_end_tag_as_text() {
    let mut expected = chars("</sc x");
    expected.push(end("script"));
    assert_eq!(expected, script_tokens("</sc x</script>"));
}

#[test]
fn attributes_without_a_name_are_not_handed_out() {
    assert_eq!(
        vec![start("p", false, vec![attr("class", "")])],
        all_tokens("<p  class>")
    );
    assert_eq!(vec![start("p", false, Vec::new())], all_tokens("<p =x>"));
    assert_eq!(
        vec![start("p", false, vec![attr("a", "1"), attr("b", "2")])],
        all_tokens("<p a=1  =9 b=2>")
    );
}

#[test]
fn every_tag_name_is_free_of_uppercase_letters() {
    for html in ["<A><Bc D=E></bC>", "<X1-Y z>text</X1-Y>", "<ÄB></ÄB>"] {
        for token in all_tokens(html) {
            match token {
                HTMLToken::StartTag { tag, attributes, .. } => {
                    assert!(!tag.chars().any(|c| c.is_ascii_uppercase()), "{}", tag);
                    assert!(attributes.iter().all(|a| !a.name().is_empty()));
                }
                HTMLToken::EndTag { tag } => {
                    assert!(!tag.chars().any(|c| c.is_ascii_uppercase()), "{}", tag);
                }
                _ => {}
            }
        }
    }
}

#[test]
fn text_characters_outside_ascii_are_kept() {
    assert_eq!(chars("héllo ✓"), all_tokens("héllo ✓"));
}

#[test]
fn a_text_has_no_more_tokens_than_characters_and_eof() {
    for html in ["a", "<p>", "<p class=a>x</p>", "< <1 </ >", "abc<"] {
        let tokens = drain(&mut HtmlTokenizer::new(html.to_string()));
        assert!(tokens.len() <= html.chars().count() + 1, "{}", html);
        assert_eq!(Some(&HTMLToken::Eof), tokens.last());
    }
    for script in ["</a </b- <<", "<a<b", "</script x"] {
        let mut tokenizer = HtmlTokenizer::new(script.to_string());
        tokenizer.enter_script_data();
        let tokens = drain(&mut tokenizer);
        assert!(tokens.len() <= script.chars().count() + 1, "{}", script);
        assert_eq!(Some(&HTMLToken::Eof), tokens.last());
    }
}

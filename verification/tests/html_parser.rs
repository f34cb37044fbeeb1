use saba_core::renderer::dom::node::{Element, ElementKind, Node, NodeId, NodeKind, Window};
use saba_core::renderer::html::attribute::Attribute;
use saba_core::renderer::html::parser::HtmlParser;
use saba_core::renderer::html::token::HtmlTokenizer;

fn parse(html: &str) -> Window {
    HtmlParser::new(HtmlTokenizer::new(html.to_string())).construct_tree()
}

fn children(window: &Window, id: NodeId) -> Vec<NodeId> {
    let mut out = Vec::new();
    let mut next = window.node(id).first_child();
    while let Some(child) = next {
        out.push(child);
        next = window.node(child).next_sibling();
    }
    assert_eq!(out, window.children(id));
    out
}

// The tree below `id`, written as `kind(child child ...)`, text in quotes.
fn shape(window: &Window, id: NodeId) -> String {
    let node = window.node(id);
    let mut out = match node.kind() {
        NodeKind::Document => "document".to_string(),
        NodeKind::Element(e) => format!("{:?}", e.kind()).to_lowercase(),
        NodeKind::Text(s) => format!("{:?}", s),
    };
    let below: Vec<String> = children(window, id).iter().map(|c| shape(window, *c)).collect();
    if !below.is_empty() {
        out.push('(');
        out.push_str(&below.join(" "));
        out.push(')');
    }
    out
}

fn tree(html: &str) -> String {
    let window = parse(html);
    check_links(&window);
    shape(&window, window.document())
}

// What holds of every tree at rest.
fn check_links(window: &Window) {
    assert!(window.len() >= 1);
    assert!(matches!(window.node(0).kind(), NodeKind::Document));
    assert_eq!(None, window.node(0).parent());
    for id in 0..window.len() {
        let node = window.node(id);
        if id > 0 {
            assert!(!matches!(node.kind(), NodeKind::Document));
            let parent = node.parent().unwrap();
            assert!(parent < id);
            let listed = children(window, parent);
            assert_eq!(1, listed.iter().filter(|c| **c == id).count());
            let mut ancestor = Some(parent);
            while let Some(a) = ancestor {
                assert!(a != id);
                ancestor = window.node(a).parent();
            }
        }
        if let Some(previous) = node.previous_sibling() {
            assert_eq!(Some(id), window.node(previous).next_sibling());
        }
        let below = children(window, id);
        assert_eq!(below.first().copied(), node.first_child());
        assert_eq!(below.last().copied(), node.last_child());
        assert_eq!(node.first_child().is_none(), node.last_child().is_none());
        for child in below {
            assert_eq!(Some(id), window.node(child).parent());
        }
    }
}

#[test]
fn empty_input_builds_an_empty_document() {
    let window = parse("");
    assert_eq!(1, window.len());
    assert_eq!(0, window.document());
    assert!(matches!(window.node(window.document()).kind(), NodeKind::Document));
    assert_eq!(None, window.node(0).first_child());
    assert!(window.get(1).is_none());
    assert!(window.get(0).is_some());
}

#[test]
fn full_document_builds_the_expected_tree() {
    assert_eq!(
        "document(html(head body(p(\"hi\"))))",
        tree("<html><head></head><body><p>hi</p></body></html>")
    );
}

#[test]
fn body_only_gets_html_and_head_made_up() {
    assert_eq!("document(html(head body))", tree("<body></body>"));
    let window = parse("<body></body>");
    let html = window.node(0).first_child().unwrap();
    let head = window.node(html).first_child().unwrap();
    let body = window.node(head).next_sibling().unwrap();
    assert_eq!(Some(ElementKind::Html), window.node(html).get_element_kind());
    assert_eq!(Some(ElementKind::Head), window.node(head).get_element_kind());
    assert_eq!(Some(ElementKind::Body), window.node(body).get_element_kind());
    assert_eq!(Some(head), window.node(body).previous_sibling());
    assert_eq!(Some(html), window.node(body).parent());
    assert_eq!(Some(body), window.node(html).last_child());
    assert_eq!(None, window.node(body).next_sibling());
}

#[test]
fn text_in_the_body_becomes_one_text_node() {
    assert_eq!(
        "document(html(head body(\"text\")))",
        tree("<html><head></head><body>text</body></html>")
    );
    assert_eq!("document(html(head body(p(\"a b\"))))", tree("<p>a b</p>"));
}

#[test]
fn leading_whitespace_in_the_body_is_dropped() {
    assert_eq!("document(html(head body(p(\"x \"))))", tree("<body> \n<p> x </p></body>"));
}

#[test]
fn style_and_script_content_is_text_in_the_head() {
    assert_eq!(
        "document(html(head(style(\"p { }\") script(\"1 + 2\")) body))",
        tree("<html><head><style>p { }</style><script>1 + 2</script></head><body></body></html>")
    );
}

#[test]
fn attributes_are_kept_on_the_element() {
    let window =
        parse("<html lang=en><head></head><body class=\"a\" id=b><p x=y></p></body></html>");
    check_links(&window);
    let html = window.node(0).first_child().unwrap();
    let element = window.node(html).get_element().unwrap();
    assert_eq!(ElementKind::Html, element.kind());
    let attributes = element.attributes();
    assert_eq!(1, attributes.len());
    assert_eq!("lang", attributes[0].name());
    assert_eq!("en", attributes[0].value());
    let body = window.node(html).last_child().unwrap();
    let attributes = window.node(body).get_element().unwrap().attributes();
    assert_eq!(2, attributes.len());
    assert_eq!("class", attributes[0].name());
    assert_eq!("a", attributes[0].value());
    assert_eq!("id", attributes[1].name());
    assert_eq!("b", attributes[1].value());
}

#[test]
fn unknown_start_tag_in_the_head_is_dropped_and_known_one_closes_the_head() {
    assert_eq!("document(html(head body))", tree("<html><head><meta></head><body></body></html>"));
    assert_eq!("document(html(head body(p)))", tree("<html><head><p></body></html>"));
}

#[test]
fn only_p_is_inserted_in_the_body() {
    assert_eq!("document(html(head body(p)))", tree("<body><h1></h1><p></p><a></a></body>"));
}

#[test]
fn end_tag_other_than_body_and_html_leaves_the_element_open() {
    // </p> closes nothing, so the second paragraph goes below the text of the first.
    assert_eq!("document(html(head body(p(\"a\"(p(\"b\"))))))", tree("<p>a</p><p>b</p>"));
}

#[test]
fn html_end_tag_closes_body_and_document() {
    // After </html> nothing is open, so a late paragraph goes below the document.
    assert_eq!("document(html(head body) p(\"x\"))", tree("<body></html><p>x"));
}

#[test]
fn mismatched_end_tag_in_text_mode_closes_nothing() {
    // </style> finds no open style and closes nothing, so the text of the script stays
    // the innermost open node and the style that follows goes below it.
    assert_eq!(
        "document(html(head(script(\"a\"(style(\"b\")))) body))",
        tree("<script>a</style><style>b</style></script></head><body>")
    );
}

#[test]
fn characters_before_the_document_are_ignored() {
    assert_eq!("document(html(head body(\"b\")))", tree("a  <html> <head> </head> <body>b"));
}

#[test]
fn input_that_ends_inside_a_tag_keeps_what_was_built() {
    assert_eq!("document(html(head body(p)))", tree("<p><a href="));
}

#[test]
fn window_grows_by_append_child() {
    let mut window = Window::new();
    let html = Element::new("html", Vec::new()).unwrap();
    let a = window.append_child(0, NodeKind::Element(html));
    let b = window.append_child(a, NodeKind::Text("x".to_string()));
    let c = window.append_child(a, NodeKind::Element(Element::of_kind(ElementKind::P, Vec::new())));
    window.append_text_char(b, 'y');
    window.append_text_char(c, 'z');
    check_links(&window);
    assert_eq!((1, 2, 3), (a, b, c));
    assert_eq!("document(html(\"xy\" p))", shape(&window, 0));
    assert_eq!(Some("xy".to_string()), window.node(b).get_text());
    assert_eq!(None, window.node(c).get_text());
    assert!(window.node(b).is_text());
    assert_eq!(Some(b), window.node(c).previous_sibling());
    assert_eq!(Some(c), window.node(b).next_sibling());
    assert_eq!(Some(b), window.node(a).first_child());
    assert_eq!(Some(c), window.node(a).last_child());
}

#[test]
fn element_names() {
    for (name, kind) in [
        ("html", ElementKind::Html),
        ("head", ElementKind::Head),
        ("style", ElementKind::Style),
        ("script", ElementKind::Script),
        ("body", ElementKind::Body),
        ("p", ElementKind::P),
        ("h1", ElementKind::H1),
        ("h2", ElementKind::H2),
        ("a", ElementKind::A),
    ] {
        assert_eq!(Ok(kind), ElementKind::from_str(name));
        assert_eq!(kind, Element::new(name, Vec::new()).unwrap().kind());
    }
    assert_eq!(
        Err(saba_core::error::Error::UnexpectedInput(
            "unknown element name div".to_string()
        )),
        ElementKind::from_str("div")
    );
    assert!(Element::new("HTML", Vec::new()).is_err());
}

#[test]
fn block_elements() {
    for (kind, block) in [
        (ElementKind::Html, false),
        (ElementKind::Head, false),
        (ElementKind::Style, false),
        (ElementKind::Script, false),
        (ElementKind::Body, true),
        (ElementKind::P, true),
        (ElementKind::H1, true),
        (ElementKind::H2, true),
        (ElementKind::A, false),
    ] {
        assert_eq!(block, Element::of_kind(kind, Vec::new()).is_block_element());
    }
}

#[test]
fn node_kind_equality_ignores_attributes_and_text() {
    let mut attribute = Attribute::new();
    attribute.add_char('x', true);
    let plain = NodeKind::Element(Element::of_kind(ElementKind::P, Vec::new()));
    let with_attribute = NodeKind::Element(Element::of_kind(ElementKind::P, vec![attribute]));
    let other = NodeKind::Element(Element::of_kind(ElementKind::A, Vec::new()));
    assert!(plain == with_attribute);
    assert!(plain != other);
    assert!(NodeKind::Text("a".to_string()) == NodeKind::Text("b".to_string()));
    assert!(NodeKind::Text("a".to_string()) != NodeKind::Document);
    assert!(NodeKind::Document == NodeKind::Document);
    assert!(NodeKind::Document != plain);
}

#[test]
fn node_links_are_set_and_read() {
    let mut node = Node::new(NodeKind::Document);
    assert_eq!(None, node.parent());
    assert_eq!(None, node.first_child());
    node.set_parent(Some(1));
    node.set_first_child(Some(2));
    node.set_last_child(Some(3));
    node.set_previous_sibling(Some(4));
    node.set_next_sibling(Some(5));
    assert_eq!(Some(1), node.parent());
    assert_eq!(Some(2), node.first_child());
    assert_eq!(Some(3), node.last_child());
    assert_eq!(Some(4), node.previous_sibling());
    assert_eq!(Some(5), node.next_sibling());
    assert_eq!(None, node.get_element_kind());
    assert!(node.get_element().is_none());
    assert!(matches!(node.into_kind(), NodeKind::Document));
}

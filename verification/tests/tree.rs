use xml_doc::builder::build_tree;
use xml_doc::element::Element;
use xml_doc::error::XmlError;
use xml_doc::events::{Tag, XmlEvent};
use xml_doc::node::Node;

#[test]
fn basic_roundtrip() {
    let xml = r#"<asdf asdf="hi">  <qwer/> <wer/> </asdf>"#;
    let elt: Element = xml.parse().unwrap();
    let new_xml = elt.to_str();

    assert_eq!(xml, new_xml);
}

#[test]
fn empty_element_canonicalized() {
    let elt = Element::from("<a></a>").unwrap();
    assert_eq!(elt.to_str(), "<a/>");
}

#[test]
fn self_closing_short_circuit() {
    let elt = Element::from("<a/>").unwrap();
    assert_eq!(elt.name, "a");
    assert_eq!(elt.children.len(), 0);
}

#[test]
fn trailing_siblings_ignored() {
    let elt = Element::from("<a/><b/>").unwrap();
    assert_eq!(elt.name, "a");
    assert_eq!(elt.children.len(), 0);
}

#[test]
fn trailing_garbage_ignored_after_root() {
    // The tokenizer would fail on the tail, but the root is already
    // complete by then, exactly as with a lazy event source.
    let elt = Element::from("<a/> trailing <").unwrap();
    assert_eq!(elt.name, "a");
    assert_eq!(elt.children.len(), 0);
}

#[test]
fn nesting_fidelity() {
    let elt = Element::from("<a><b/><c/></a>").unwrap();
    assert_eq!(elt.name, "a");
    assert_eq!(elt.children.len(), 2);
    match &elt.children[0] {
        Node::Element(b) => assert_eq!(b.name, "b"),
        _ => panic!("first child should be an element"),
    }
    match &elt.children[1] {
        Node::Element(c) => assert_eq!(c.name, "c"),
        _ => panic!("second child should be an element"),
    }
}

#[test]
fn whitespace_only_text_preserved() {
    let elt = Element::from("<a> <b/> </a>").unwrap();
    assert_eq!(elt.children.len(), 3);
    match &elt.children[0] {
        Node::Text(s) => assert_eq!(s, " "),
        _ => panic!("first child should be text"),
    }
    match &elt.children[1] {
        Node::Element(b) => assert_eq!(b.name, "b"),
        _ => panic!("second child should be an element"),
    }
    match &elt.children[2] {
        Node::Text(s) => assert_eq!(s, " "),
        _ => panic!("third child should be text"),
    }
    assert_eq!(elt.to_str(), "<a> <b/> </a>");
}

#[test]
fn mismatched_tags_rejected() {
    match Element::from("<a><b></c></a>") {
        Err(XmlError::Mismatch { expected, found }) => {
            assert_eq!(expected, "b");
            assert_eq!(found, "c");
        }
        _ => panic!("a mismatched end tag must be rejected"),
    }
}

#[test]
fn attribute_mapping() {
    let elt = Element::from(r#"<a x="1" y="2"/>"#).unwrap();
    assert_eq!(elt.attrs.len(), 2);
    assert!(elt.attrs.contains(&("x".to_string(), "1".to_string())));
    assert!(elt.attrs.contains(&("y".to_string(), "2".to_string())));
    let text = elt.to_str();
    assert!(text == r#"<a x="1" y="2"/>"# || text == r#"<a y="2" x="1"/>"#);
}

#[test]
fn unexpected_end_of_input() {
    assert!(matches!(Element::from("<a><b></b>"), Err(XmlError::UnexpectedEof)));
}

#[test]
fn no_root_element() {
    assert!(matches!(Element::from(""), Err(XmlError::NoRoot)));
    assert!(matches!(Element::from("  "), Err(XmlError::NoRoot)));
    assert!(matches!(Element::from("<!-- only a comment -->"), Err(XmlError::NoRoot)));
}

#[test]
fn malformed_input_rejected() {
    assert!(matches!(Element::from("<a"), Err(XmlError::Syntax(_))));
}

#[test]
fn text_is_escaped_on_write() {
    let elt = Element {
        children: vec![Node::Text("a<b&c".to_string())],
        name: "x".to_string(),
        attrs: vec![],
    };
    assert_eq!(elt.to_str(), "<x>a&lt;b&amp;c</x>");
}

#[test]
fn attribute_value_is_escaped_on_write() {
    let elt = Element {
        children: vec![],
        name: "x".to_string(),
        attrs: vec![("k".to_string(), "1\"2".to_string())],
    };
    assert_eq!(elt.to_str(), "<x k=\"1&quot;2\"/>");
}

#[test]
fn duplicate_attributes_overwrite_earlier_values() {
    let events = vec![XmlEvent::Empty(Tag {
        name: "a".to_string(),
        attrs: vec![
            ("x".to_string(), "1".to_string()),
            ("x".to_string(), "2".to_string()),
            ("y".to_string(), "3".to_string()),
        ],
    })];
    let elt = build_tree(&events, None).unwrap();
    assert_eq!(elt.attrs, vec![("x".to_string(), "2".to_string()), ("y".to_string(), "3".to_string())]);
}

#[test]
fn empty_text_events_are_dropped() {
    let events = vec![
        XmlEvent::Start(Tag { name: "a".to_string(), attrs: vec![] }),
        XmlEvent::Text(String::new()),
        XmlEvent::End("a".to_string()),
    ];
    let elt = build_tree(&events, None).unwrap();
    assert_eq!(elt.children.len(), 0);
    assert_eq!(elt.to_str(), "<a/>");
}

#[test]
fn nested_roundtrip() {
    let xml = "<root><child>text</child><leaf/></root>";
    let elt = Element::from(xml).unwrap();
    assert_eq!(elt.to_str(), xml);
}

#[test]
fn leading_end_tag_event_skipped() {
    let events = vec![
        XmlEvent::End("x".to_string()),
        XmlEvent::Empty(Tag { name: "a".to_string(), attrs: vec![] }),
    ];
    let elt = build_tree(&events, None).unwrap();
    assert_eq!(elt.name, "a");
}

#[test]
fn entity_reference_decoded_and_reescaped() {
    let elt = Element::from("<a>x&amp;y</a>").unwrap();
    assert_eq!(elt.children.len(), 3);
    match (&elt.children[0], &elt.children[1], &elt.children[2]) {
        (Node::Text(x), Node::Text(amp), Node::Text(y)) => {
            assert_eq!(x, "x");
            assert_eq!(amp, "&");
            assert_eq!(y, "y");
        }
        _ => panic!("all three children should be text"),
    }
    assert_eq!(elt.to_str(), "<a>x&amp;y</a>");
}

#[test]
fn character_references_decoded() {
    let elt = Element::from("<a>&#49;&#x41;</a>").unwrap();
    let mut text = String::new();
    for child in &elt.children {
        match child {
            Node::Text(s) => text.push_str(s),
            _ => panic!("only text children expected"),
        }
    }
    assert_eq!(text, "1A");
    assert_eq!(elt.to_str(), "<a>1A</a>");
}

#[test]
fn unknown_entity_rejected() {
    assert!(matches!(Element::from("<a>&foo;</a>"), Err(XmlError::Syntax(_))));
}

#[test]
fn leading_declaration_and_text_skipped() {
    let elt = Element::from("<?xml version=\"1.0\"?>hello<a/>").unwrap();
    assert_eq!(elt.name, "a");
    assert_eq!(elt.children.len(), 0);
}

#[test]
fn comments_produce_no_node() {
    let elt = Element::from("<a><!-- note --><b/></a>").unwrap();
    assert_eq!(elt.children.len(), 1);
    match &elt.children[0] {
        Node::Element(b) => assert_eq!(b.name, "b"),
        _ => panic!("the only child should be the element"),
    }
}

#[test]
fn root_end_tag_closes_without_name_check() {
    // The completed root is returned as soon as its end tag pops the
    // last open element; only nested end tags are checked for a name
    // match.
    let elt = Element::from("<a><b></b></wrong>").unwrap();
    assert_eq!(elt.name, "a");
    assert_eq!(elt.children.len(), 1);
}

use html_dom::{ParseError, Parser};
use std::collections::BTreeMap;

// The tree with its attributes as an ordered map, for a printed form in
// which the attributes read as a map.

#[allow(dead_code)]
#[derive(Debug)]
struct Node {
    node: NodeType,
}

#[allow(dead_code)]
#[derive(Debug)]
enum NodeType {
    Text(String),
    Tag(TagNode),
}

#[allow(dead_code)]
#[derive(Debug)]
struct TagNode {
    name: String,
    children: Vec<Node>,
    attr: BTreeMap<String, String>,
}

fn shape(node: &html_dom::Node) -> Node {
    match node.kind() {
        html_dom::NodeType::Text(text) => Node { node: NodeType::Text(text.clone()) },
        html_dom::NodeType::Tag(tag) => {
            let mut attr = BTreeMap::new();
            let mut i = 0;
            while let Some((key, value)) = tag.attributes().entry(i) {
                attr.insert(key.to_string(), value.to_string());
                i += 1;
            }
            Node {
                node: NodeType::Tag(TagNode {
                    name: tag.name().to_string(),
                    children: tag.children().iter().map(shape).collect(),
                    attr,
                }),
            }
        }
    }
}

#[test]
fn parser_check_text() {
    let input = r#"abcd"#;
    let mut parser = Parser::new();
    assert_eq!(
        format!("{:?}", shape(&parser.parse(&input).unwrap())),
        r#"Node { node: Text("abcd") }"#
    );
}

#[test]
fn parser_check_with_attributes() {
    let input = r#"<a id="something" class="something"></a>"#;
    let mut parser = Parser::new();
    assert_eq!(
        format!("{:?}", shape(&parser.parse(&input).unwrap())),
        r#"Node { node: Tag(TagNode { name: "a", children: [], attr: {"class": "something", "id": "something"} }) }"#
    );
}

#[test]
fn children_test() {
    let input = r#"<html><div></div><a></a></html>"#;
    let mut parser = Parser::new();
    assert_eq!(
        format!("{:?}", shape(&parser.parse(&input).unwrap())),
        r#"Node { node: Tag(TagNode { name: "html", children: [Node { node: Tag(TagNode { name: "div", children: [], attr: {} }) }, Node { node: Tag(TagNode { name: "a", children: [], attr: {} }) }], attr: {} }) }"#
    );
}

#[test]
fn empty_element() {
    let mut parser = Parser::new();
    assert_eq!(
        format!("{:?}", shape(&parser.parse("<a></a>").unwrap())),
        r#"Node { node: Tag(TagNode { name: "a", children: [], attr: {} }) }"#
    );
    assert_eq!(parser.offset(), 7);
}

#[test]
fn text_without_tags_is_one_text_node() {
    for input in ["", "a", "abcd", "two words, and more", "a > b = \"c\" / d", "über"] {
        let mut parser = Parser::new();
        let node = parser.parse(input).unwrap();
        match node.kind() {
            html_dom::NodeType::Text(text) => assert_eq!(text, input),
            html_dom::NodeType::Tag(_) => panic!("a tag for {:?}", input),
        }
        assert_eq!(parser.offset(), input.len());
    }
}

#[test]
fn text_stops_before_the_first_tag() {
    let mut parser = Parser::new();
    assert_eq!(
        format!("{:?}", shape(&parser.parse("abc<d></d>").unwrap())),
        r#"Node { node: Text("abc") }"#
    );
    assert_eq!(parser.offset(), 3);
}

#[test]
fn only_the_first_node_is_read() {
    let mut parser = Parser::new();
    assert_eq!(
        format!("{:?}", shape(&parser.parse("<a></a><b></b>").unwrap())),
        r#"Node { node: Tag(TagNode { name: "a", children: [], attr: {} }) }"#
    );
    assert_eq!(parser.offset(), 7);
}

#[test]
fn each_parse_starts_at_the_beginning() {
    let mut parser = Parser::new();
    let first = parser.parse("ab<c></c>").unwrap();
    let second = parser.parse("ab<c></c>").unwrap();
    assert_eq!(first, second);
    assert_eq!(parser.offset(), 2);
}

#[test]
fn attributes_are_held_in_key_order() {
    let mut parser = Parser::new();
    let node = parser.parse(r#"<a id="1" class="2" alt="3"></a>"#).unwrap();
    let html_dom::NodeType::Tag(tag) = node.kind() else { panic!("no tag") };
    let attributes = tag.attributes();
    assert_eq!(attributes.len(), 3);
    assert_eq!(attributes.entry(0), Some(("alt", "3")));
    assert_eq!(attributes.entry(1), Some(("class", "2")));
    assert_eq!(attributes.entry(2), Some(("id", "1")));
    assert_eq!(attributes.entry(3), None);
    assert_eq!(attributes.get("class"), Some("2"));
    assert_eq!(attributes.get("href"), None);
}

#[test]
fn a_later_value_replaces_an_earlier_one() {
    let mut parser = Parser::new();
    assert_eq!(
        format!("{:?}", shape(&parser.parse(r#"<a k="1" j="x" k="2"></a>"#).unwrap())),
        r#"Node { node: Tag(TagNode { name: "a", children: [], attr: {"j": "x", "k": "2"} }) }"#
    );
}

#[test]
fn spaces_are_allowed_around_the_parts_of_an_attribute() {
    let mut parser = Parser::new();
    assert_eq!(
        format!("{:?}", shape(&parser.parse("<a   k  =  \"v w\"   x=\"\" ></a>").unwrap())),
        r#"Node { node: Tag(TagNode { name: "a", children: [], attr: {"k": "v w", "x": ""} }) }"#
    );
}

#[test]
fn an_attribute_may_have_an_empty_key() {
    let mut parser = Parser::new();
    assert_eq!(
        format!("{:?}", shape(&parser.parse("<a =\"v\"></a>").unwrap())),
        r#"Node { node: Tag(TagNode { name: "a", children: [], attr: {"": "v"} }) }"#
    );
}

#[test]
fn text_and_elements_among_children() {
    let mut parser = Parser::new();
    assert_eq!(
        format!("{:?}", shape(&parser.parse("<p>hi<b>x</b>there</p>").unwrap())),
        r#"Node { node: Tag(TagNode { name: "p", children: [Node { node: Text("hi") }, Node { node: Tag(TagNode { name: "b", children: [Node { node: Text("x") }], attr: {} }) }, Node { node: Text("there") }], attr: {} }) }"#
    );
    assert_eq!(parser.offset(), 22);
}

#[test]
fn the_end_of_the_input_closes_open_elements() {
    let mut parser = Parser::new();
    assert_eq!(
        format!("{:?}", shape(&parser.parse("<a><b>text").unwrap())),
        r#"Node { node: Tag(TagNode { name: "a", children: [Node { node: Tag(TagNode { name: "b", children: [Node { node: Text("text") }], attr: {} }) }], attr: {} }) }"#
    );
    assert_eq!(parser.offset(), 10);
}

#[test]
fn characters_of_several_bytes_pass_through() {
    let mut parser = Parser::new();
    assert_eq!(
        format!("{:?}", shape(&parser.parse("<p títle=\"é'✓\">ü→𝄞</p>").unwrap())),
        "Node { node: Tag(TagNode { name: \"p\", children: [Node { node: Text(\"ü→𝄞\") }], attr: {\"títle\": \"é'✓\"} }) }"
    );
}

#[test]
fn a_slash_is_part_of_a_name() {
    let mut parser = Parser::new();
    assert_eq!(
        format!("{:?}", shape(&parser.parse("<br/>").unwrap())),
        r#"Node { node: Tag(TagNode { name: "br/", children: [], attr: {} }) }"#
    );
    assert_eq!(
        format!("{:?}", shape(&parser.parse("</a>").unwrap())),
        r#"Node { node: Tag(TagNode { name: "/a", children: [], attr: {} }) }"#
    );
}

#[test]
fn unterminated_attribute_value_is_an_error() {
    let mut parser = Parser::new();
    assert_eq!(parser.parse("<a id=\"x>"), Err(ParseError::UnexpectedEOF { position: 9 }));
    assert_eq!(parser.offset(), 0);
}

#[test]
fn mismatched_closing_tag_is_an_error() {
    let mut parser = Parser::new();
    assert_eq!(
        parser.parse("<a></b>"),
        Err(ParseError::MismatchedClosingTag { opened: "a".to_string(), closed: "b".to_string() })
    );
    assert_eq!(parser.offset(), 0);
    assert_eq!(
        parser.parse("<a><b></a></b>"),
        Err(ParseError::MismatchedClosingTag { opened: "b".to_string(), closed: "a".to_string() })
    );
    assert_eq!(
        parser.parse("<a></a >"),
        Err(ParseError::MismatchedClosingTag { opened: "a".to_string(), closed: "a ".to_string() })
    );
}

#[test]
fn the_input_may_not_end_inside_a_header() {
    let mut parser = Parser::new();
    for (input, position) in [
        ("<", 1),
        ("<a", 2),
        ("<a ", 3),
        ("<a id", 5),
        ("<a id=", 6),
        ("<a id =  ", 9),
        ("<a id=\"", 7),
        ("<a id=\"x\"", 9),
        ("<a id=\"x\" ", 10),
        ("<a><b", 5),
    ] {
        assert_eq!(parser.parse(input), Err(ParseError::UnexpectedEOF { position }), "{}", input);
    }
}

#[test]
fn the_input_may_not_end_inside_a_closing_tag() {
    let mut parser = Parser::new();
    assert_eq!(parser.parse("<a></a"), Err(ParseError::UnexpectedEOF { position: 6 }));
    assert_eq!(parser.parse("<a></"), Err(ParseError::UnexpectedEOF { position: 5 }));
    assert_eq!(parser.parse("<a><"), Err(ParseError::UnexpectedEOF { position: 4 }));
}

#[test]
fn a_missing_delimiter_is_a_malformed_attribute() {
    let mut parser = Parser::new();
    assert_eq!(
        parser.parse("<a id x=\"1\"></a>"),
        Err(ParseError::MalformedAttribute { position: 6 })
    );
    assert_eq!(parser.parse("<a id=x></a>"), Err(ParseError::MalformedAttribute { position: 6 }));
    assert_eq!(
        parser.parse("<a id= 'x'></a>"),
        Err(ParseError::MalformedAttribute { position: 7 })
    );
    assert_eq!(
        parser.parse("<p><a id=\"1\" b c=\"2\"></a></p>"),
        Err(ParseError::MalformedAttribute { position: 15 })
    );
}

#[test]
fn a_tag_needs_a_name() {
    let mut parser = Parser::new();
    assert_eq!(parser.parse("<>"), Err(ParseError::EmptyTagName { position: 1 }));
    assert_eq!(parser.parse("< a></a>"), Err(ParseError::EmptyTagName { position: 1 }));
    assert_eq!(parser.parse("<a>x<></a>"), Err(ParseError::EmptyTagName { position: 5 }));
}

use html_dom::text::{precedes, same_bytes, substring};
use html_dom::{Attributes, Parser};

fn canonical(input: &str) -> String {
    Parser::new().parse(input).unwrap().serialize()
}

#[test]
fn markup_of_a_text_is_the_text() {
    assert_eq!(canonical("abcd"), "abcd");
    assert_eq!(canonical(""), "");
    assert_eq!(canonical("a > b<c>"), "a > b");
}

#[test]
fn markup_writes_attributes_in_key_order() {
    assert_eq!(
        canonical(r#"<a id="something" class="something"></a>"#),
        r#"<a class="something" id="something"></a>"#
    );
    assert_eq!(
        canonical("<a   k  =  \"v w\"   x=\"\" b=\"1\" >t</a>"),
        r#"<a b="1" k="v w" x="">t</a>"#
    );
    assert_eq!(canonical("<a =\"v\" k=\"1\" k=\"2\">"), r#"<a ="v" k="2"></a>"#);
}

#[test]
fn markup_closes_every_element() {
    assert_eq!(canonical("<a><b>text"), "<a><b>text</b></a>");
    assert_eq!(canonical("<html><div></div><a></a></html>"), "<html><div></div><a></a></html>");
    assert_eq!(canonical("</a>"), "</a><//a>");
}

#[test]
fn a_parsed_tree_reads_back_from_its_markup() {
    for input in [
        "",
        "abcd",
        "text<b>",
        "<a></a>",
        r#"<a id="something" class="something"></a>"#,
        "<html><div></div><a></a></html>",
        "<p>hi<b>x</b>there</p>",
        "<a><b>text",
        "<a  z = \"1\"  y=\"2\" z=\"3\" =\"\"><b c=\"d>e\">f</b>g<h/></h/>i</a>rest",
        "<p títle=\"é'✓\">ü→𝄞<ß></ß></p>",
        "</a>",
        "<br/>",
        "<a b>c=\"d\">e</a>",
    ] {
        let tree = Parser::new().parse(input).unwrap();
        let markup = tree.serialize();
        let mut parser = Parser::new();
        assert_eq!(parser.parse(&markup), Ok(tree), "{}", input);
        assert_eq!(parser.offset(), markup.len(), "{}", input);
    }
}

#[test]
fn canonical_markup_is_its_own_markup() {
    for input in ["<a  id=\"1\"   class=\"2\"><b>", "x<y>", "<p>a<q r=\"s\"></q>b</p>"] {
        let once = canonical(input);
        assert_eq!(canonical(&once), once);
    }
}

#[test]
fn attributes_keep_one_value_per_key() {
    let mut attributes = Attributes::new();
    assert_eq!(attributes.len(), 0);
    assert_eq!(attributes.get("a"), None);
    assert_eq!(attributes.entry(0), None);
    attributes.insert("m".to_string(), "1".to_string());
    attributes.insert("z".to_string(), "2".to_string());
    attributes.insert("a".to_string(), "3".to_string());
    attributes.insert("mm".to_string(), "4".to_string());
    assert_eq!(attributes.len(), 4);
    attributes.insert("m".to_string(), "5".to_string());
    assert_eq!(attributes.len(), 4);
    assert_eq!(attributes.entry(0), Some(("a", "3")));
    assert_eq!(attributes.entry(1), Some(("m", "5")));
    assert_eq!(attributes.entry(2), Some(("mm", "4")));
    assert_eq!(attributes.entry(3), Some(("z", "2")));
    assert_eq!(attributes.get("m"), Some("5"));
    assert_eq!(attributes.get("mm"), Some("4"));
    assert_eq!(attributes.get("n"), None);
}

#[test]
fn attributes_order_keys_by_their_bytes() {
    let mut attributes = Attributes::new();
    for key in ["b", "", "é", "B", "ab", "a", "z"] {
        attributes.insert(key.to_string(), String::new());
    }
    let mut keys = Vec::new();
    let mut i = 0;
    while let Some((key, _)) = attributes.entry(i) {
        keys.push(key.to_string());
        i += 1;
    }
    assert_eq!(keys, vec!["", "B", "a", "ab", "b", "z", "é"]);
}

#[test]
fn strings_are_ordered_by_their_bytes() {
    assert!(precedes("a", "b"));
    assert!(!precedes("b", "a"));
    assert!(!precedes("a", "a"));
    assert!(precedes("", "a"));
    assert!(!precedes("", ""));
    assert!(precedes("a", "ab"));
    assert!(!precedes("ab", "a"));
    assert!(precedes("Z", "a"));
    assert!(precedes("z", "é"));
    for (a, b) in [("class", "id"), ("ab", "b"), ("", "x"), ("é", "ü")] {
        assert_eq!(precedes(a, b), a < b);
        assert_eq!(precedes(b, a), b < a);
    }
}

#[test]
fn strings_are_told_apart_by_their_bytes() {
    assert!(same_bytes("", ""));
    assert!(same_bytes("héllo", "héllo"));
    assert!(!same_bytes("hello", "hellp"));
    assert!(!same_bytes("hello", "hell"));
    assert!(!same_bytes("", "a"));
}

#[test]
fn a_substring_lies_between_two_boundaries() {
    assert_eq!(substring("héllo", 0, 6), "héllo");
    assert_eq!(substring("héllo", 1, 3), "é");
    assert_eq!(substring("héllo", 3, 3), "");
    assert_eq!(substring("héllo", 3, 6), "llo");
}

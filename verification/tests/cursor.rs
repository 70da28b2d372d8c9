use html_dom::{ParseError, Parser};

#[test]
fn a_new_parser_stands_at_the_start() {
    assert_eq!(Parser::new().offset(), 0);
}

#[test]
fn consume_takes_the_expected_byte() {
    let mut parser = Parser::new();
    assert_eq!(parser.consume("<a>", b'<'), Ok(()));
    assert_eq!(parser.offset(), 1);
    assert_eq!(parser.consume("<a>", b'a'), Ok(()));
    assert_eq!(parser.offset(), 2);
}

#[test]
fn consume_reports_another_byte() {
    let mut parser = Parser::new();
    assert_eq!(
        parser.consume("abc", b'x'),
        Err(ParseError::UnexpectedToken { expected: b'x', found: b'a', position: 0 })
    );
    assert_eq!(parser.offset(), 0);
    assert_eq!(parser.consume("abc", b'a'), Ok(()));
    assert_eq!(
        parser.consume("abc", b'c'),
        Err(ParseError::UnexpectedToken { expected: b'c', found: b'b', position: 1 })
    );
    assert_eq!(parser.offset(), 1);
}

#[test]
fn consume_reports_the_end_of_the_input() {
    let mut parser = Parser::new();
    assert_eq!(parser.consume("", b'<'), Err(ParseError::UnexpectedEOF { position: 0 }));
    assert_eq!(parser.consume("a", b'a'), Ok(()));
    assert_eq!(parser.consume("a", b'a'), Err(ParseError::UnexpectedEOF { position: 1 }));
    assert_eq!(parser.offset(), 1);
}

#[test]
fn consume_option_never_fails() {
    let mut parser = Parser::new();
    parser.consume_option("ab", b'b');
    assert_eq!(parser.offset(), 0);
    parser.consume_option("ab", b'a');
    assert_eq!(parser.offset(), 1);
    parser.consume_option("ab", b'b');
    assert_eq!(parser.offset(), 2);
    parser.consume_option("ab", b'b');
    assert_eq!(parser.offset(), 2);
    parser.consume_option("", b'b');
    assert_eq!(parser.offset(), 2);
}

#[test]
fn consume_zero_plus_skips_a_run() {
    let mut parser = Parser::new();
    parser.consume_zero_plus("   a  ", &vec![b' ']);
    assert_eq!(parser.offset(), 3);
    parser.consume_zero_plus("   a  ", &vec![b' ']);
    assert_eq!(parser.offset(), 3);
    parser.consume_zero_plus("   a  ", &vec![b'a', b' ']);
    assert_eq!(parser.offset(), 6);
    parser.consume_zero_plus("   a  ", &vec![b' ']);
    assert_eq!(parser.offset(), 6);
    parser.consume_zero_plus("", &vec![b' ']);
    assert_eq!(parser.offset(), 6);
}

#[test]
fn consume_zero_plus_with_an_empty_set_stays() {
    let mut parser = Parser::new();
    parser.consume_zero_plus("aaa", &vec![]);
    assert_eq!(parser.offset(), 0);
}

#[test]
fn match_until_stops_at_a_stop_byte() {
    let mut parser = Parser::new();
    assert_eq!(parser.match_until("name attr>", &vec![b' ', b'>']), "name");
    assert_eq!(parser.offset(), 4);
    assert_eq!(parser.match_until("name attr>", &vec![b' ', b'>']), "");
    assert_eq!(parser.offset(), 4);
    assert_eq!(parser.match_until("name attr>", &vec![b'>']), " attr");
    assert_eq!(parser.offset(), 9);
}

#[test]
fn match_until_runs_to_the_end() {
    let mut parser = Parser::new();
    assert_eq!(parser.match_until("añb", &vec![b'<']), "añb");
    assert_eq!(parser.offset(), 4);
    assert_eq!(parser.match_until("añb", &vec![b'<']), "");
    assert_eq!(parser.offset(), 4);
    assert_eq!(Parser::new().match_until("", &vec![b'<']), "");
}

#[test]
fn a_header_is_read_on_its_own() {
    let mut parser = Parser::new();
    let (name, attributes) = parser.get_tag_info(r#"<img src="a.png" alt="">rest"#).unwrap();
    assert_eq!(name, "img");
    assert_eq!(attributes.len(), 2);
    assert_eq!(attributes.get("src"), Some("a.png"));
    assert_eq!(attributes.get("alt"), Some(""));
    assert_eq!(parser.offset(), 24);
}

#[test]
fn a_header_starts_with_its_bracket() {
    let mut parser = Parser::new();
    assert_eq!(
        parser.get_tag_info("abc").err(),
        Some(ParseError::UnexpectedToken { expected: b'<', found: b'a', position: 0 })
    );
    assert_eq!(parser.get_tag_info("").err(), Some(ParseError::UnexpectedEOF { position: 0 }));
    assert_eq!(parser.offset(), 0);
}

#[test]
fn a_failed_header_leaves_the_cursor() {
    let mut parser = Parser::new();
    let input = "ab<c d=e>";
    assert_eq!(parser.match_until(input, &vec![b'<']), "ab");
    assert_eq!(
        parser.get_tag_info(input).err(),
        Some(ParseError::MalformedAttribute { position: 7 })
    );
    assert_eq!(parser.offset(), 2);
}

#[test]
fn children_are_read_up_to_the_closing_tag() {
    let mut parser = Parser::new();
    let input = "<a>x<b></b></a>y";
    parser.get_tag_info(input).unwrap();
    let children = parser.get_children(input, "a").unwrap();
    assert_eq!(children.len(), 2);
    assert_eq!(parser.offset(), 15);
    let rest = parser.get_children(input, "a").unwrap();
    assert_eq!(rest.len(), 1);
    assert_eq!(parser.offset(), 16);
    assert_eq!(parser.get_children(input, "a").unwrap().len(), 0);
}

#[test]
fn failed_children_leave_the_cursor() {
    let mut parser = Parser::new();
    let input = "<a>x<b></c></a>";
    parser.get_tag_info(input).unwrap();
    assert_eq!(
        parser.get_children(input, "a").err(),
        Some(ParseError::MismatchedClosingTag { opened: "b".to_string(), closed: "c".to_string() })
    );
    assert_eq!(parser.offset(), 3);
}

#[test]
fn an_element_is_read_on_its_own() {
    let mut parser = Parser::new();
    let input = "<a><b></b></a><c></c>";
    let first = parser.get_element(input).unwrap();
    assert_eq!(parser.offset(), 14);
    let second = parser.get_element(input).unwrap();
    assert_eq!(parser.offset(), 21);
    assert_eq!(first.serialize(), "<a><b></b></a>");
    assert_eq!(second.serialize(), "<c></c>");
    assert_eq!(parser.get_element(input).err(), Some(ParseError::UnexpectedEOF { position: 21 }));
}

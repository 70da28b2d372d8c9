//! The parser: a cursor over the input with its scanning steps, and on top
//! of them the reading of tag headers, of children, and of a document.

use crate::attributes::{Attributes, Entry};
use crate::dom::{trees_of, Node, NodeView};
use crate::error::{ParseError, ParseErrorView};
use crate::grammar::{
    attributes_at, children_at, document, element_at, header_at, key_stops, lemma_run_until,
    lemma_run_while, name_stops, run_until, run_while, Header, EQUALS, GT, LT, QUOTE, SLASH,
    SPACE,
};
use crate::laws::{lemma_document_canonical, lemma_text_document};
use crate::markup::canonical;
use crate::text::{
    lemma_boundary_after_ascii, lemma_boundary_at_start_byte, same_bytes, substring,
};
use vstd::prelude::*;
use vstd::string::*;
use vstd::utf8::*;

verus! {

/// Whether `byte` is one of `set`.
pub fn is_member(set: &Vec<u8>, byte: u8) -> (found: bool)
    ensures
        found == set@.contains(byte),
{
    let mut i: usize = 0;
    while i < set.len()
        invariant
            i <= set.len(),
            forall|j: int| 0 <= j < i ==> set@[j] != byte,
        decreases set.len() - i,
    {
        if set[i] == byte {
            return true;
        }
        i += 1;
    }
    false
}

/// A parser. It holds the cursor: a byte offset into the input that its
/// steps read from and move forward.
pub struct Parser {
    pos: usize,
}

impl Parser {
    /// The cursor's byte offset.
    pub closed spec fn position(&self) -> int {
        self.pos as int
    }

    /// A parser with its cursor at offset 0.
    pub fn new() -> (parser: Self)
        ensures
            parser.position() == 0,
    {
        Self { pos: 0 }
    }

    /// The cursor's byte offset.
    pub fn offset(&self) -> (pos: usize)
        ensures
            pos == self.position(),
    {
        self.pos
    }

    /// Moves the cursor past the bytes at the cursor that belong to `chars`,
    /// as far as they go. Beyond the end of the input it stays where it is.
    pub fn consume_zero_plus(&mut self, input: &str, chars: &Vec<u8>)
        ensures
            final(self).position() == old(self).position() + run_while(
                input.spec_bytes(),
                old(self).position(),
                chars@,
            ),
    {
        let bytes = input.as_bytes();
        let ghost start = self.pos as int;
        while self.pos < bytes.len() && is_member(chars, bytes[self.pos])
            invariant
                bytes@ == input.spec_bytes(),
                start <= self.pos,
                start + run_while(bytes@, start, chars@) == self.pos + run_while(
                    bytes@,
                    self.pos as int,
                    chars@,
                ),
            decreases bytes.len() - self.pos,
        {
            self.pos += 1;
        }
    }

    /// Returns the text from the cursor up to the next byte of `chars`, or
    /// to the end of the input if none follows, and moves the cursor there.
    /// The text may be empty.
    ///
    /// The text is cut out of `input` as a string, so both cuts must fall
    /// between characters: the cursor stands on a character boundary, and no
    /// byte of `chars` is one that continues a character.
    pub fn match_until(&mut self, input: &str, chars: &Vec<u8>) -> (text: String)
        requires
            is_char_boundary(input.spec_bytes(), old(self).position()),
            forall|i: int| 0 <= i < chars@.len() ==> !is_continuation_byte(#[trigger] chars@[i]),
        ensures
            final(self).position() == old(self).position() + run_until(
                input.spec_bytes(),
                old(self).position(),
                chars@,
            ),
            final(self).position() <= input.spec_bytes().len(),
            encode_utf8(text@) == input.spec_bytes().subrange(
                old(self).position(),
                final(self).position(),
            ),
            is_char_boundary(input.spec_bytes(), final(self).position()),
    {
        let bytes = input.as_bytes();
        let init = self.pos;
        proof {
            encode_utf8_valid_utf8(input@);
        }
        while self.pos < bytes.len() && !is_member(chars, bytes[self.pos])
            invariant
                bytes@ == input.spec_bytes(),
                init <= self.pos <= bytes.len(),
                init + run_until(bytes@, init as int, chars@) == self.pos + run_until(
                    bytes@,
                    self.pos as int,
                    chars@,
                ),
            decreases bytes.len() - self.pos,
        {
            self.pos += 1;
        }
        proof {
            if self.pos < bytes.len() {
                let i = choose|i: int| 0 <= i < chars@.len() && chars@[i] == bytes@[self.pos as int];
                lemma_boundary_at_start_byte(bytes@, self.pos as int);
            } else {
                is_char_boundary_start_end_of_seq(bytes@);
            }
        }
        substring(input, init, self.pos)
    }

    /// Moves the cursor one byte on if the byte at the cursor is `chr`; else
    /// it leaves the cursor alone.
    pub fn consume_option(&mut self, input: &str, chr: u8)
        ensures
            final(self).position() == if old(self).position() < input.spec_bytes().len()
                && input.spec_bytes()[old(self).position()] == chr {
                old(self).position() + 1
            } else {
                old(self).position()
            },
    {
        let bytes = input.as_bytes();
        if self.pos < bytes.len() && bytes[self.pos] == chr {
            self.pos += 1;
        }
    }

    /// Moves the cursor one byte on if the byte at the cursor is `chr`.
    /// Else it fails and leaves the cursor alone: with `UnexpectedEOF` where
    /// the cursor is at or beyond the end of the input, with
    /// `UnexpectedToken` where another byte stands there.
    pub fn consume(&mut self, input: &str, chr: u8) -> (result: Result<(), ParseError>)
        ensures
            match result {
                Ok(()) => {
                    &&& old(self).position() < input.spec_bytes().len()
                    &&& input.spec_bytes()[old(self).position()] == chr
                    &&& final(self).position() == old(self).position() + 1
                },
                Err(e) => {
                    &&& final(self).position() == old(self).position()
                    &&& e@ == if old(self).position() >= input.spec_bytes().len() {
                        ParseErrorView::UnexpectedEOF { position: old(self).position() }
                    } else {
                        ParseErrorView::UnexpectedToken {
                            expected: chr,
                            found: input.spec_bytes()[old(self).position()],
                            position: old(self).position(),
                        }
                    }
                    &&& old(self).position() >= input.spec_bytes().len()
                        || input.spec_bytes()[old(self).position()] != chr
                },
            },
    {
        let bytes = input.as_bytes();
        if self.pos >= bytes.len() {
            Err(ParseError::UnexpectedEOF { position: self.pos })
        } else if bytes[self.pos] == chr {
            self.pos += 1;
            Ok(())
        } else {
            Err(ParseError::UnexpectedToken { expected: chr, found: bytes[self.pos], position: self.pos })
        }
    }
}

impl Parser {
    /// Moves the cursor past the spaces at the cursor.
    fn skip_spaces(&mut self, input: &str)
        requires
            old(self).position() <= input.spec_bytes().len(),
            is_char_boundary(input.spec_bytes(), old(self).position()),
        ensures
            final(self).position() == old(self).position() + run_while(
                input.spec_bytes(),
                old(self).position(),
                seq![SPACE],
            ),
            final(self).position() <= input.spec_bytes().len(),
            is_char_boundary(input.spec_bytes(), final(self).position()),
    {
        let spaces = vec![SPACE];
        assert(spaces@ =~= seq![SPACE]);
        let ghost start = self.pos as int;
        self.consume_zero_plus(input, &spaces);
        proof {
            let bytes = input.spec_bytes();
            encode_utf8_valid_utf8(input@);
            lemma_run_while(bytes, start, seq![SPACE]);
            if self.pos > start {
                assert(seq![SPACE].contains(bytes[self.pos - 1]));
                assert(bytes[self.pos - 1] == SPACE);
                lemma_boundary_after_ascii(bytes, self.pos - 1);
            }
        }
    }

    /// Moves the cursor past `chr`, a delimiter inside an attribute.
    fn expect_in_attribute(&mut self, input: &str, chr: u8) -> (result: Result<(), ParseError>)
        requires
            old(self).position() <= input.spec_bytes().len(),
            chr < 0x80,
        ensures
            match result {
                Ok(()) => {
                    &&& old(self).position() < input.spec_bytes().len()
                    &&& input.spec_bytes()[old(self).position()] == chr
                    &&& final(self).position() == old(self).position() + 1
                    &&& is_char_boundary(input.spec_bytes(), final(self).position())
                },
                Err(e) => {
                    &&& final(self).position() == old(self).position()
                    &&& e@ == if old(self).position() >= input.spec_bytes().len() {
                        ParseErrorView::UnexpectedEOF { position: input.spec_bytes().len() as int }
                    } else {
                        ParseErrorView::MalformedAttribute { position: old(self).position() }
                    }
                    &&& old(self).position() >= input.spec_bytes().len()
                        || input.spec_bytes()[old(self).position()] != chr
                },
            },
    {
        let at = self.pos;
        match self.consume(input, chr) {
            Ok(()) => {
                proof {
                    encode_utf8_valid_utf8(input@);
                    lemma_boundary_after_ascii(input.spec_bytes(), at as int);
                }
                Ok(())
            },
            Err(ParseError::UnexpectedToken { .. }) => Err(
                ParseError::MalformedAttribute { position: at },
            ),
            Err(e) => Err(e),
        }
    }

    /// Reads the tag header at the cursor: its name and its attributes. The
    /// cursor moves past the header's closing `>`; if the header cannot be
    /// read, it stays where it was.
    #[verifier::loop_isolation(false)]
    pub fn get_tag_info(&mut self, input: &str) -> (result: Result<(String, Attributes), ParseError>)
        requires
            is_char_boundary(input.spec_bytes(), old(self).position()),
        ensures
            match result {
                Ok((name, attributes)) => {
                    &&& header_at(input.spec_bytes(), old(self).position()) == Ok::<
                        Header,
                        ParseErrorView,
                    >(
                        Header {
                            name: encode_utf8(name@),
                            attributes: attributes.listing(),
                            end: final(self).position(),
                        },
                    )
                    &&& name@.len() > 0
                    &&& old(self).position() < final(self).position() <= input.spec_bytes().len()
                    &&& is_char_boundary(input.spec_bytes(), final(self).position())
                },
                Err(e) => {
                    &&& header_at(input.spec_bytes(), old(self).position()) == Err::<
                        Header,
                        ParseErrorView,
                    >(e@)
                    &&& final(self).position() == old(self).position()
                },
            },
    {
        let ghost bytes = input.spec_bytes();
        let len = input.as_bytes().len();
        let start = self.pos;
        proof {
            encode_utf8_valid_utf8(input@);
        }
        if start > len {
            return Err(ParseError::UnexpectedEOF { position: start });
        }
        match self.consume(input, LT) {
            Ok(()) => {},
            Err(e) => {
                return Err(e);
            },
        }
        proof {
            lemma_boundary_after_ascii(bytes, start as int);
        }
        let name_ends = vec![SPACE, GT];
        assert(name_ends@ =~= name_stops());
        let name = self.match_until(input, &name_ends);
        if self.pos >= len {
            self.pos = start;
            return Err(ParseError::UnexpectedEOF { position: len });
        }
        if self.pos == start + 1 {
            let at = self.pos;
            self.pos = start;
            return Err(ParseError::EmptyTagName { position: at });
        }
        proof {
            if name@.len() == 0 {
                assert(encode_utf8(name@).len() == 0);
            }
        }
        self.skip_spaces(input);
        let ghost first = self.pos as int;
        let mut attributes = Attributes::new();
        let key_ends = vec![EQUALS, SPACE];
        assert(key_ends@ =~= key_stops());
        let value_ends = vec![QUOTE];
        assert(value_ends@ =~= seq![QUOTE]);
        loop
            invariant
                bytes == input.spec_bytes(),
                valid_utf8(bytes),
                len == bytes.len(),
                start < self.pos <= len,
                is_char_boundary(bytes, self.pos as int),
                key_ends@ == key_stops(),
                value_ends@ == seq![QUOTE],
                attributes_at(bytes, self.pos as int, attributes.listing()) == attributes_at(
                    bytes,
                    first,
                    Seq::<Entry>::empty(),
                ),
            decreases len - self.pos,
        {
            let raw = input.as_bytes();
            if self.pos >= len {
                self.pos = start;
                return Err(ParseError::UnexpectedEOF { position: len });
            }
            if raw[self.pos] == GT {
                proof {
                    lemma_boundary_after_ascii(bytes, self.pos as int);
                }
                self.pos += 1;
                return Ok((name, attributes));
            }
            let key = self.match_until(input, &key_ends);
            self.skip_spaces(input);
            match self.expect_in_attribute(input, EQUALS) {
                Ok(()) => {},
                Err(e) => {
                    self.pos = start;
                    return Err(e);
                },
            }
            self.skip_spaces(input);
            match self.expect_in_attribute(input, QUOTE) {
                Ok(()) => {},
                Err(e) => {
                    self.pos = start;
                    return Err(e);
                },
            }
            let ghost value_start = self.pos as int;
            let value = self.match_until(input, &value_ends);
            match self.expect_in_attribute(input, QUOTE) {
                Ok(()) => {},
                Err(e) => {
                    proof {
                        lemma_run_until(bytes, value_start, seq![QUOTE]);
                    }
                    self.pos = start;
                    return Err(e);
                },
            }
            attributes.insert(key, value);
            self.skip_spaces(input);
        }
    }
}

/// The children `rest` put behind the children `before` that were read first.
pub open spec fn behind(
    before: Seq<NodeView>,
    rest: Result<(Seq<NodeView>, int), ParseErrorView>,
) -> Result<(Seq<NodeView>, int), ParseErrorView> {
    match rest {
        Ok((nodes, end)) => Ok((before + nodes, end)),
        Err(e) => Err(e),
    }
}

impl Parser {
    /// Reads the element at the cursor, header and children, and moves the
    /// cursor past it; if it cannot be read, the cursor stays where it was.
    pub fn get_element(&mut self, input: &str) -> (result: Result<Node, ParseError>)
        requires
            is_char_boundary(input.spec_bytes(), old(self).position()),
        ensures
            match result {
                Ok(node) => {
                    &&& element_at(input.spec_bytes(), old(self).position()) == Ok::<
                        (NodeView, int),
                        ParseErrorView,
                    >((node@, final(self).position()))
                    &&& old(self).position() < final(self).position() <= input.spec_bytes().len()
                    &&& is_char_boundary(input.spec_bytes(), final(self).position())
                },
                Err(e) => {
                    &&& element_at(input.spec_bytes(), old(self).position()) == Err::<
                        (NodeView, int),
                        ParseErrorView,
                    >(e@)
                    &&& final(self).position() == old(self).position()
                },
            },
        decreases input.spec_bytes().len() - old(self).position(), 0int,
    {
        let start = self.pos;
        let (name, attributes) = match self.get_tag_info(input) {
            Ok(header) => header,
            Err(e) => {
                return Err(e);
            },
        };
        match self.get_children(input, name.as_str()) {
            Ok(children) => Ok(Node::tag(name, attributes, children)),
            Err(e) => {
                self.pos = start;
                Err(e)
            },
        }
    }

    /// Reads the children of the element `name` from the cursor on: up to
    /// and with its closing tag, or up to the end of the input. The cursor
    /// moves past what was read; if the children cannot be read, it stays
    /// where it was.
    #[verifier::loop_isolation(false)]
    pub fn get_children(&mut self, input: &str, name: &str) -> (result: Result<
        Vec<Node>,
        ParseError,
    >)
        requires
            is_char_boundary(input.spec_bytes(), old(self).position()),
        ensures
            match result {
                Ok(children) => {
                    &&& children_at(input.spec_bytes(), old(self).position(), name.spec_bytes())
                        == Ok::<(Seq<NodeView>, int), ParseErrorView>(
                        (trees_of(children@), final(self).position()),
                    )
                    &&& old(self).position() <= final(self).position() <= input.spec_bytes().len()
                    &&& is_char_boundary(input.spec_bytes(), final(self).position())
                },
                Err(e) => {
                    &&& children_at(input.spec_bytes(), old(self).position(), name.spec_bytes())
                        == Err::<(Seq<NodeView>, int), ParseErrorView>(e@)
                    &&& final(self).position() == old(self).position()
                },
            },
        decreases input.spec_bytes().len() - old(self).position(), 1int,
    {
        let ghost bytes = input.spec_bytes();
        let ghost opened = name.spec_bytes();
        let raw = input.as_bytes();
        let len = raw.len();
        let start = self.pos;
        let mut ret: Vec<Node> = Vec::new();
        let text_ends = vec![LT];
        assert(text_ends@ =~= seq![LT]);
        let tag_ends = vec![GT];
        assert(tag_ends@ =~= seq![GT]);
        proof {
            encode_utf8_valid_utf8(input@);
            assert(start <= len);
            assert(trees_of(ret@) =~= Seq::<NodeView>::empty());
            assert(behind(trees_of(ret@), children_at(bytes, start as int, opened)) =~= children_at(
                bytes,
                start as int,
                opened,
            ));
        }
        while self.pos < len
            invariant
                start <= self.pos <= len,
                is_char_boundary(bytes, self.pos as int),
                children_at(bytes, start as int, opened) == behind(
                    trees_of(ret@),
                    children_at(bytes, self.pos as int, opened),
                ),
            decreases len - self.pos,
        {
            let at = self.pos;
            let ghost before = trees_of(ret@);
            if raw[at] == LT && at + 1 < len && raw[at + 1] == SLASH {
                proof {
                    lemma_boundary_after_ascii(bytes, at as int);
                    lemma_boundary_after_ascii(bytes, at + 1);
                }
                self.pos = at + 2;
                let closed = self.match_until(input, &tag_ends);
                if self.pos >= len {
                    self.pos = start;
                    return Err(ParseError::UnexpectedEOF { position: len });
                }
                if !same_bytes(closed.as_str(), name) {
                    self.pos = start;
                    return Err(
                        ParseError::MismatchedClosingTag { opened: name.to_owned(), closed },
                    );
                }
                proof {
                    lemma_run_until(bytes, at + 2, seq![GT]);
                    lemma_boundary_after_ascii(bytes, self.pos as int);
                    assert(before + Seq::<NodeView>::empty() =~= before);
                }
                self.pos += 1;
                return Ok(ret);
            } else if raw[at] == LT {
                match self.get_element(input) {
                    Ok(node) => {
                        ret.push(node);
                        assert(trees_of(ret@) =~= before + seq![node@]);
                        assert forall|rest: Seq<NodeView>|
                            before + (seq![node@] + rest) == trees_of(ret@) + rest by {
                            assert(before + (seq![node@] + rest) =~= trees_of(ret@) + rest);
                        }
                    },
                    Err(e) => {
                        self.pos = start;
                        return Err(e);
                    },
                }
            } else {
                assert(!seq![LT].contains(bytes[at as int]));
                let text = self.match_until(input, &text_ends);
                let node = Node::text(text);
                ret.push(node);
                assert(trees_of(ret@) =~= before + seq![node@]);
                assert forall|rest: Seq<NodeView>|
                    before + (seq![node@] + rest) == trees_of(ret@) + rest by {
                    assert(before + (seq![node@] + rest) =~= trees_of(ret@) + rest);
                }
            }
        }
        proof {
            assert(trees_of(ret@) + Seq::<NodeView>::empty() =~= trees_of(ret@));
        }
        Ok(ret)
    }

    /// Parses the first node of `input`: the element that starts it if its
    /// first byte is `<`, else the text up to the first `<` or to the end.
    /// What follows that node is not read.
    ///
    /// The parse starts at offset 0, wherever the cursor stood. Afterwards
    /// the cursor stands behind the node, or at 0 if the parse failed.
    ///
    /// An input without `<` always parses, to a text that holds all of it.
    /// Whatever tree comes out reads back from its canonical markup.
    pub fn parse(&mut self, input: &str) -> (result: Result<Node, ParseError>)
        ensures
            match result {
                Ok(node) => {
                    &&& document(input.spec_bytes()) == Ok::<(NodeView, int), ParseErrorView>(
                        (node@, final(self).position()),
                    )
                    &&& final(self).position() <= input.spec_bytes().len()
                    &&& canonical(node@, false)
                },
                Err(e) => {
                    &&& document(input.spec_bytes()) == Err::<(NodeView, int), ParseErrorView>(e@)
                    &&& final(self).position() == 0
                },
            },
            !input.spec_bytes().contains(LT) ==> result is Ok && result->Ok_0@ == NodeView::Text(
                input.spec_bytes(),
            ),
    {
        let raw = input.as_bytes();
        self.pos = 0;
        proof {
            encode_utf8_valid_utf8(input@);
            is_char_boundary_start_end_of_seq(input.spec_bytes());
            if document(input.spec_bytes()) is Ok {
                lemma_document_canonical(input.spec_bytes());
            }
            if !input.spec_bytes().contains(LT) {
                lemma_text_document(input.spec_bytes());
            }
        }
        if raw.len() > 0 && raw[0] == LT {
            self.get_element(input)
        } else {
            let text_ends = vec![LT];
            assert(text_ends@ =~= seq![LT]);
            Ok(Node::text(self.match_until(input, &text_ends)))
        }
    }
}

} // verus!

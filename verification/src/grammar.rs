//! The grammar of the markup, as functions from the input's bytes and a
//! position to what stands there. The parser's contracts speak of these.
//!
//! A document is one node. A node is an element or a run of text that ends
//! before the next `<`. An element is a header, `<name key="value" ...>`,
//! then its children, then `</name>`; the end of the input closes every
//! element that is still open.

use crate::attributes::{with_entry, Entry};
use crate::dom::NodeView;
use crate::error::ParseErrorView;
use vstd::prelude::*;

verus! {

/// `<`
pub const LT: u8 = 0x3c;

/// `>`
pub const GT: u8 = 0x3e;

/// `/`
pub const SLASH: u8 = 0x2f;

/// `=`
pub const EQUALS: u8 = 0x3d;

/// `"`
pub const QUOTE: u8 = 0x22;

/// A space.
pub const SPACE: u8 = 0x20;

/// How many bytes are left from `pos` to the end of `input`.
pub open spec fn remaining(input: Seq<u8>, pos: int) -> nat {
    if 0 <= pos <= input.len() {
        (input.len() - pos) as nat
    } else {
        0
    }
}

/// The number of bytes from `pos` on that stand before the first byte of
/// `stops`, or before the end of the input if none of them follows.
pub open spec fn run_until(input: Seq<u8>, pos: int, stops: Seq<u8>) -> nat
    decreases remaining(input, pos),
{
    if pos < 0 || pos >= input.len() || stops.contains(input[pos]) {
        0
    } else {
        1 + run_until(input, pos + 1, stops)
    }
}

/// The number of bytes from `pos` on that all belong to `set`.
pub open spec fn run_while(input: Seq<u8>, pos: int, set: Seq<u8>) -> nat
    decreases remaining(input, pos),
{
    if pos < 0 || pos >= input.len() || !set.contains(input[pos]) {
        0
    } else {
        1 + run_while(input, pos + 1, set)
    }
}

/// The bytes that end a tag's name.
pub open spec fn name_stops() -> Seq<u8> {
    seq![SPACE, GT]
}

/// The bytes that end an attribute's key.
pub open spec fn key_stops() -> Seq<u8> {
    seq![EQUALS, SPACE]
}

/// What a tag header holds, and where it ends.
pub struct Header {
    pub name: Seq<u8>,
    pub attributes: Seq<Entry>,
    pub end: int,
}

/// The rest of a header from `pos` on: attribute after attribute, each
/// `key="value"` with spaces allowed around `=` and after the value, up to
/// and with the closing `>`. `found` holds the attributes read so far; a key
/// that comes again takes the later value. The result is the attributes and
/// the position after `>`.
///
/// Where the input ends first, the error is `UnexpectedEOF` at its length.
/// Where another byte stands in the place of `=` or of the opening `"`, it is
/// `MalformedAttribute` at that byte. A value runs to the next `"`, so a
/// closing quote is only ever missed by the input ending.
pub open spec fn attributes_at(input: Seq<u8>, pos: int, found: Seq<Entry>) -> Result<
    (Seq<Entry>, int),
    ParseErrorView,
>
    decreases remaining(input, pos),
{
    let len = input.len() as int;
    if pos < 0 || pos >= len {
        Err(ParseErrorView::UnexpectedEOF { position: len })
    } else if input[pos] == GT {
        Ok((found, pos + 1))
    } else {
        let key_end = pos + run_until(input, pos, key_stops());
        let equals = key_end + run_while(input, key_end, seq![SPACE]);
        if equals >= len {
            Err(ParseErrorView::UnexpectedEOF { position: len })
        } else if input[equals] != EQUALS {
            Err(ParseErrorView::MalformedAttribute { position: equals })
        } else {
            let quote = equals + 1 + run_while(input, equals + 1, seq![SPACE]);
            if quote >= len {
                Err(ParseErrorView::UnexpectedEOF { position: len })
            } else if input[quote] != QUOTE {
                Err(ParseErrorView::MalformedAttribute { position: quote })
            } else {
                let value_end = quote + 1 + run_until(input, quote + 1, seq![QUOTE]);
                if value_end >= len {
                    Err(ParseErrorView::UnexpectedEOF { position: len })
                } else {
                    let next = value_end + 1 + run_while(input, value_end + 1, seq![SPACE]);
                    attributes_at(
                        input,
                        next,
                        with_entry(
                            found,
                            input.subrange(pos, key_end),
                            input.subrange(quote + 1, value_end),
                        ),
                    )
                }
            }
        }
    }
}

/// The tag header that starts at `pos`: `<`, a name that runs to the next
/// space or `>` and is not empty, spaces, and the attributes up to `>`.
///
/// Where `pos` holds no `<`, the error is that of a missed byte:
/// `UnexpectedEOF` at the end of the input, `UnexpectedToken` before it.
/// Where the name is empty, it is `EmptyTagName` at the byte after `<`, or
/// `UnexpectedEOF` if the input ends there.
pub open spec fn header_at(input: Seq<u8>, pos: int) -> Result<Header, ParseErrorView> {
    let len = input.len() as int;
    if pos < 0 || pos >= len {
        Err(ParseErrorView::UnexpectedEOF { position: pos })
    } else if input[pos] != LT {
        Err(ParseErrorView::UnexpectedToken { expected: LT, found: input[pos], position: pos })
    } else {
        let name_end = pos + 1 + run_until(input, pos + 1, name_stops());
        if name_end >= len {
            Err(ParseErrorView::UnexpectedEOF { position: len })
        } else if name_end == pos + 1 {
            Err(ParseErrorView::EmptyTagName { position: name_end })
        } else {
            let start = name_end + run_while(input, name_end, seq![SPACE]);
            match attributes_at(input, start, Seq::empty()) {
                Err(e) => Err(e),
                Ok((attributes, end)) => Ok(
                    Header { name: input.subrange(pos + 1, name_end), attributes, end },
                ),
            }
        }
    }
}

/// The element that starts at `pos`, header and children, and the position after it.
pub open spec fn element_at(input: Seq<u8>, pos: int) -> Result<(NodeView, int), ParseErrorView>
    decreases remaining(input, pos), 0int,
{
    match header_at(input, pos) {
        Err(e) => Err(e),
        Ok(header) => {
            // A header is never empty: see `lemma_header_at`.
            if header.end <= pos {
                Err(ParseErrorView::UnexpectedEOF { position: pos })
            } else {
                match children_at(input, header.end, header.name) {
                    Err(e) => Err(e),
                    Ok((children, end)) => Ok(
                        (
                            NodeView::Tag {
                                name: header.name,
                                attributes: header.attributes,
                                children,
                            },
                            end,
                        ),
                    ),
                }
            }
        },
    }
}

/// The children of the element `opened` from `pos` on, and the position after them.
///
/// At `</` the children end: the name up to the next `>` must be `opened`,
/// else the error is `MismatchedClosingTag`; where no `>` follows, it is
/// `UnexpectedEOF` at the length of the input. At another `<` an element
/// starts. Any other byte starts a text that runs to the next `<`. At the end
/// of the input the children end as well.
pub open spec fn children_at(input: Seq<u8>, pos: int, opened: Seq<u8>) -> Result<
    (Seq<NodeView>, int),
    ParseErrorView,
>
    decreases remaining(input, pos), 1int,
{
    let len = input.len() as int;
    if pos < 0 || pos >= len {
        Ok((Seq::empty(), pos))
    } else if input[pos] == LT && pos + 1 < len && input[pos + 1] == SLASH {
        let close = pos + 2 + run_until(input, pos + 2, seq![GT]);
        let closed = input.subrange(pos + 2, close);
        if close >= len {
            Err(ParseErrorView::UnexpectedEOF { position: len })
        } else if closed != opened {
            Err(ParseErrorView::MismatchedClosingTag { opened, closed })
        } else {
            Ok((Seq::empty(), close + 1))
        }
    } else if input[pos] == LT {
        match element_at(input, pos) {
            Err(e) => Err(e),
            Ok((element, next)) => {
                // An element is never empty: see `lemma_element_at`.
                if next <= pos {
                    Ok((seq![element], next))
                } else {
                    match children_at(input, next, opened) {
                        Err(e) => Err(e),
                        Ok((rest, end)) => Ok((seq![element] + rest, end)),
                    }
                }
            },
        }
    } else {
        let stop = pos + 1 + run_until(input, pos + 1, seq![LT]);
        match children_at(input, stop, opened) {
            Err(e) => Err(e),
            Ok((rest, end)) => Ok((seq![NodeView::Text(input.subrange(pos, stop))] + rest, end)),
        }
    }
}

/// The first node of a document and the position after it: the element that
/// starts the input if its first byte is `<`, else the text up to the first
/// `<`. What follows that node is not read.
pub open spec fn document(input: Seq<u8>) -> Result<(NodeView, int), ParseErrorView> {
    if input.len() > 0 && input[0] == LT {
        element_at(input, 0)
    } else {
        let stop = run_until(input, 0, seq![LT]) as int;
        Ok((NodeView::Text(input.subrange(0, stop)), stop))
    }
}

/// What `run_until` measures: no byte of the run is a stop, and the run ends
/// at a stop or at the end of the input.
pub proof fn lemma_run_until(input: Seq<u8>, pos: int, stops: Seq<u8>)
    requires
        0 <= pos <= input.len(),
    ensures
        pos + run_until(input, pos, stops) <= input.len(),
        forall|j: int|
            pos <= j < pos + run_until(input, pos, stops) ==> !stops.contains(#[trigger] input[j]),
        pos + run_until(input, pos, stops) == input.len() || stops.contains(
            input[pos + run_until(input, pos, stops)],
        ),
    decreases input.len() - pos,
{
    if pos < input.len() && !stops.contains(input[pos]) {
        lemma_run_until(input, pos + 1, stops);
    }
}

/// A run of `k` bytes without a stop, with a stop or the end of the input after it, is what
/// `run_until` measures.
pub proof fn lemma_run_until_is(input: Seq<u8>, pos: int, stops: Seq<u8>, k: int)
    requires
        0 <= pos,
        0 <= k,
        pos + k <= input.len(),
        forall|j: int| pos <= j < pos + k ==> !stops.contains(#[trigger] input[j]),
        pos + k == input.len() || stops.contains(input[pos + k]),
    ensures
        run_until(input, pos, stops) == k,
    decreases k,
{
    if k > 0 {
        assert(!stops.contains(input[pos]));
        lemma_run_until_is(input, pos + 1, stops, k - 1);
    }
}

/// What `run_while` measures: every byte of the run is in the set, and the
/// run ends at a byte outside it or at the end of the input.
pub proof fn lemma_run_while(input: Seq<u8>, pos: int, set: Seq<u8>)
    requires
        0 <= pos <= input.len(),
    ensures
        pos + run_while(input, pos, set) <= input.len(),
        forall|j: int|
            pos <= j < pos + run_while(input, pos, set) ==> set.contains(#[trigger] input[j]),
        pos + run_while(input, pos, set) == input.len() || !set.contains(
            input[pos + run_while(input, pos, set)],
        ),
    decreases input.len() - pos,
{
    if pos < input.len() && set.contains(input[pos]) {
        lemma_run_while(input, pos + 1, set);
    }
}

/// A run of `k` bytes of the set, with a byte outside it or the end of the input after it, is
/// what `run_while` measures.
pub proof fn lemma_run_while_is(input: Seq<u8>, pos: int, set: Seq<u8>, k: int)
    requires
        0 <= pos,
        0 <= k,
        pos + k <= input.len(),
        forall|j: int| pos <= j < pos + k ==> set.contains(#[trigger] input[j]),
        pos + k == input.len() || !set.contains(input[pos + k]),
    ensures
        run_while(input, pos, set) == k,
    decreases k,
{
    if k > 0 {
        assert(set.contains(input[pos]));
        lemma_run_while_is(input, pos + 1, set, k - 1);
    }
}

} // verus!

//! The canonical markup of a tree: the text that stands for it, with the
//! attributes of each element in the order of their keys.

use crate::attributes::{strictly_sorted, Attributes, Entry};
use crate::dom::{trees_of, Node, NodeType, NodeView};
use crate::grammar::{key_stops, name_stops, EQUALS, GT, LT, QUOTE, SLASH, SPACE};
use crate::text::lemma_bytes_of_concat;
use vstd::prelude::*;
use vstd::string::*;
use vstd::utf8::*;

verus! {

/// One attribute as it is written in a header: a space, then `key="value"`.
pub open spec fn entry_markup(entry: Entry) -> Seq<u8> {
    seq![SPACE] + entry.0 + seq![EQUALS, QUOTE] + entry.1 + seq![QUOTE]
}

/// The attributes as they are written in a header, one after the other.
pub open spec fn attributes_markup(attributes: Seq<Entry>) -> Seq<u8>
    decreases attributes.len(),
{
    if attributes.len() == 0 {
        Seq::empty()
    } else {
        entry_markup(attributes[0]) + attributes_markup(attributes.drop_first())
    }
}

/// The closing tag of the element `name`.
pub open spec fn closing_markup(name: Seq<u8>) -> Seq<u8> {
    seq![LT, SLASH] + name + seq![GT]
}

/// The markup of a tree: a text as it is; an element as its header, the
/// markup of its children, and its closing tag.
pub open spec fn markup(node: NodeView) -> Seq<u8>
    decreases node,
{
    match node {
        NodeView::Text(text) => text,
        NodeView::Tag { name, attributes, children } => seq![LT] + name + attributes_markup(
            attributes,
        ) + seq![GT] + children_markup(children) + closing_markup(name),
    }
}

/// The markup of some children, one after the other.
pub open spec fn children_markup(children: Seq<NodeView>) -> Seq<u8>
    decreases children,
{
    if children.len() == 0 {
        Seq::empty()
    } else {
        markup(children[0]) + children_markup(children.drop_first())
    }
}

/// Whether none of `bytes` is one of `stops`.
pub open spec fn free_of(bytes: Seq<u8>, stops: Seq<u8>) -> bool {
    forall|i: int| 0 <= i < bytes.len() ==> !stops.contains(#[trigger] bytes[i])
}

/// Whether an attribute reads back from its markup as it is: the key holds
/// no `=` and no space and does not start with `>`, the value holds no `"`.
pub open spec fn canonical_entry(entry: Entry) -> bool {
    &&& free_of(entry.0, key_stops())
    &&& entry.0.len() > 0 ==> entry.0[0] != GT
    &&& free_of(entry.1, seq![QUOTE])
}

/// Whether attributes read back from their markup as they are: they stand
/// in the strict order of their keys, and each of them reads back.
pub open spec fn canonical_attributes(attributes: Seq<Entry>) -> bool {
    &&& strictly_sorted(attributes)
    &&& forall|i: int| 0 <= i < attributes.len() ==> canonical_entry(#[trigger] attributes[i])
}

/// Whether a tree reads back from its markup as it is; `inner` says that it
/// stands among the children of an element.
///
/// A text holds no `<`, and is not empty among children. An element's name
/// is not empty, holds no space and no `>`, and does not start with `/`
/// among children; its attributes and its children read back.
pub open spec fn canonical(node: NodeView, inner: bool) -> bool
    decreases node,
{
    match node {
        NodeView::Text(text) => free_of(text, seq![LT]) && (inner ==> text.len() > 0),
        NodeView::Tag { name, attributes, children } => {
            &&& name.len() > 0
            &&& free_of(name, name_stops())
            &&& inner ==> name[0] != SLASH
            &&& canonical_attributes(attributes)
            &&& canonical_children(children)
        },
    }
}

/// Whether children read back from their markup as they are: each of them
/// does, and no text stands next to another text.
pub open spec fn canonical_children(children: Seq<NodeView>) -> bool
    decreases children,
{
    &&& forall|i: int| 0 <= i < children.len() ==> canonical(#[trigger] children[i], true)
    &&& forall|i: int|
        0 <= i < children.len() - 1 ==> !((#[trigger] children[i]) is Text && children[i + 1] is Text)
}

/// The markup of attributes of which one more is written behind the others.
pub proof fn lemma_attributes_markup_push(attributes: Seq<Entry>, last: Entry)
    ensures
        attributes_markup(attributes.push(last)) == attributes_markup(attributes) + entry_markup(
            last,
        ),
    decreases attributes.len(),
{
    let all = attributes.push(last);
    if attributes.len() == 0 {
        assert(all.drop_first() =~= Seq::<Entry>::empty());
        assert(attributes_markup(all.drop_first()) =~= Seq::<u8>::empty());
        assert(attributes_markup(all) =~= entry_markup(last));
        assert(attributes_markup(attributes) + entry_markup(last) =~= entry_markup(last));
    } else {
        assert(all.drop_first() =~= attributes.drop_first().push(last));
        lemma_attributes_markup_push(attributes.drop_first(), last);
        assert(attributes_markup(all) =~= attributes_markup(attributes) + entry_markup(last));
    }
}

/// The markup of children of which one more is written behind the others.
pub proof fn lemma_children_markup_push(children: Seq<NodeView>, last: NodeView)
    ensures
        children_markup(children.push(last)) == children_markup(children) + markup(last),
    decreases children.len(),
{
    let all = children.push(last);
    if children.len() == 0 {
        assert(all.drop_first() =~= Seq::<NodeView>::empty());
        assert(children_markup(all.drop_first()) =~= Seq::<u8>::empty());
        assert(children_markup(all) =~= markup(last));
        assert(children_markup(children) + markup(last) =~= markup(last));
    } else {
        assert(all.drop_first() =~= children.drop_first().push(last));
        lemma_children_markup_push(children.drop_first(), last);
        assert(children_markup(all) =~= children_markup(children) + markup(last));
    }
}

/// The bytes of a string of ASCII characters are its characters.
proof fn lemma_ascii_bytes(chars: Seq<char>)
    requires
        is_ascii_chars(chars),
    ensures
        encode_utf8(chars) == Seq::new(chars.len(), |i: int| chars[i] as u8),
{
    is_ascii_chars_encode_utf8(chars);
    assert(encode_utf8(chars) =~= Seq::new(chars.len(), |i: int| chars[i] as u8));
}

/// Writes `piece` behind what `out` holds.
fn push_text(out: &mut String, piece: &str)
    ensures
        encode_utf8(final(out)@) == encode_utf8(old(out)@) + piece.spec_bytes(),
{
    proof {
        lemma_bytes_of_concat(out@, piece@);
    }
    out.append(piece);
}

/// Writes the markup of `attributes` behind what `out` holds.
fn push_attributes(out: &mut String, attributes: &Attributes)
    ensures
        encode_utf8(final(out)@) == encode_utf8(old(out)@) + attributes_markup(
            attributes.listing(),
        ),
{
    let n = attributes.len();
    let ghost all = attributes.listing();
    let ghost start = encode_utf8(out@);
    let mut i: usize = 0;
    proof {
        assert(all.take(0) =~= Seq::<Entry>::empty());
        assert(start + attributes_markup(all.take(0)) =~= start);
    }
    while i < n
        invariant
            i <= n,
            n == all.len(),
            all == attributes.listing(),
            encode_utf8(out@) == start + attributes_markup(all.take(i as int)),
        decreases n - i,
    {
        let ghost before = encode_utf8(out@);
        match attributes.entry(i) {
            Some((key, value)) => {
                proof {
                    reveal_strlit(" ");
                    reveal_strlit("=\"");
                    reveal_strlit("\"");
                    lemma_ascii_bytes(" "@);
                    lemma_ascii_bytes("=\""@);
                    lemma_ascii_bytes("\""@);
                    assert(" ".spec_bytes() =~= seq![SPACE]);
                    assert("=\"".spec_bytes() =~= seq![EQUALS, QUOTE]);
                    assert("\"".spec_bytes() =~= seq![QUOTE]);
                }
                push_text(out, " ");
                push_text(out, key);
                push_text(out, "=\"");
                push_text(out, value);
                push_text(out, "\"");
                proof {
                    assert(all.take(i + 1) =~= all.take(i as int).push(all[i as int]));
                    lemma_attributes_markup_push(all.take(i as int), all[i as int]);
                    assert(encode_utf8(out@) =~= before + entry_markup(all[i as int]));
                    assert(encode_utf8(out@) =~= start + attributes_markup(all.take(i + 1)));
                }
            },
            None => {},
        }
        i += 1;
    }
    proof {
        assert(all.take(n as int) =~= all);
    }
}

/// Writes the markup of `node` behind what `out` holds.
fn push_node(out: &mut String, node: &Node)
    ensures
        encode_utf8(final(out)@) == encode_utf8(old(out)@) + markup(node@),
    decreases node@,
{
    let ghost start = encode_utf8(out@);
    match node.kind() {
        NodeType::Text(text) => {
            push_text(out, text.as_str());
        },
        NodeType::Tag(tag) => {
            let name = tag.name();
            let children = tag.children();
            let ghost kids = trees_of(children@);
            proof {
                reveal_strlit("<");
                reveal_strlit(">");
                reveal_strlit("</");
                lemma_ascii_bytes("<"@);
                lemma_ascii_bytes(">"@);
                lemma_ascii_bytes("</"@);
                assert("<".spec_bytes() =~= seq![LT]);
                assert(">".spec_bytes() =~= seq![GT]);
                assert("</".spec_bytes() =~= seq![LT, SLASH]);
            }
            push_text(out, "<");
            push_text(out, name);
            push_attributes(out, tag.attributes());
            push_text(out, ">");
            let ghost head = encode_utf8(out@);
            let mut i: usize = 0;
            proof {
                assert(kids.take(0) =~= Seq::<NodeView>::empty());
                assert(head + children_markup(kids.take(0)) =~= head);
            }
            while i < children.len()
                invariant
                    i <= children.len(),
                    kids == trees_of(children@),
                    kids == node@->children,
                    node@ is Tag,
                    encode_utf8(out@) == head + children_markup(kids.take(i as int)),
                decreases children.len() - i,
            {
                proof {
                    assert(kids[i as int] == children@[i as int]@);
                    assert(kids.take(i + 1) =~= kids.take(i as int).push(kids[i as int]));
                    lemma_children_markup_push(kids.take(i as int), kids[i as int]);
                }
                push_node(out, &children[i]);
                i += 1;
            }
            proof {
                assert(kids.take(children.len() as int) =~= kids);
            }
            push_text(out, "</");
            push_text(out, name);
            push_text(out, ">");
            proof {
                assert(encode_utf8(out@) =~= start + markup(node@));
            }
        },
    }
}

impl Node {
    /// The canonical markup of this tree.
    pub fn serialize(&self) -> (text: String)
        ensures
            encode_utf8(text@) == markup(self@),
    {
        let mut out = String::new();
        assert(encode_utf8(out@) =~= Seq::<u8>::empty());
        push_node(&mut out, self);
        assert(Seq::<u8>::empty() + markup(self@) =~= markup(self@));
        out
    }
}

} // verus!

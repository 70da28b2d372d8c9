//! What holds of parsing and of the canonical markup together.

use crate::attributes::{
    lemma_slot, lemma_with_entry_sorted, lemma_with_last_entry, slot, with_entry, Entry,
};
use crate::dom::NodeView;
use crate::error::ParseErrorView;
use crate::grammar::{
    attributes_at, children_at, document, element_at, header_at, key_stops, lemma_run_until,
    lemma_run_until_is, lemma_run_while, lemma_run_while_is, name_stops, remaining, run_until,
    run_while, EQUALS, GT, LT, QUOTE, SLASH, SPACE,
};
use crate::markup::{
    attributes_markup, canonical, canonical_attributes, canonical_children, canonical_entry,
    children_markup, closing_markup, entry_markup, free_of, markup,
};
use crate::text::comes_before;
use vstd::prelude::*;

verus! {

/// An input without `<` is one text: the document is that text, whole.
pub proof fn lemma_text_document(input: Seq<u8>)
    requires
        !input.contains(LT),
    ensures
        document(input) == Ok::<(NodeView, int), ParseErrorView>(
            (NodeView::Text(input), input.len() as int),
        ),
{
    assert forall|j: int| 0 <= j < input.len() implies !seq![LT].contains(#[trigger] input[j]) by {
        assert(input.contains(input[j]));
    }
    lemma_run_until_is(input, 0, seq![LT], input.len() as int);
    assert(input.subrange(0, input.len() as int) =~= input);
    if input.len() > 0 {
        assert(input.contains(input[0]));
    }
}

/// Attributes that read back still do when a key that reads back is given a value that does.
pub proof fn lemma_with_entry_canonical(found: Seq<Entry>, key: Seq<u8>, value: Seq<u8>)
    requires
        canonical_attributes(found),
        canonical_entry((key, value)),
    ensures
        canonical_attributes(with_entry(found, key, value)),
{
    lemma_slot(found, key, 0);
    lemma_with_entry_sorted(found, key, value);
    let i = slot(found, key, 0);
    let all = with_entry(found, key, value);
    assert forall|j: int| 0 <= j < all.len() implies canonical_entry(#[trigger] all[j]) by {
        if j == i {
        } else if i < found.len() && found[i].0 == key {
            assert(all[j] == found[j]);
        } else if j < i {
            assert(all[j] == found[j]);
        } else {
            assert(all[j] == found[j - 1]);
        }
    }
}

/// Where the rest of a header can be read, it ends behind where it began and
/// within the input, and the attributes read back from their markup.
pub proof fn lemma_attributes_at(input: Seq<u8>, pos: int, found: Seq<Entry>)
    requires
        canonical_attributes(found),
        attributes_at(input, pos, found) is Ok,
    ensures
        ({
            let (all, end) = attributes_at(input, pos, found)->Ok_0;
            &&& canonical_attributes(all)
            &&& 0 <= pos < end <= input.len()
        }),
    decreases remaining(input, pos),
{
    let len = input.len() as int;
    if input[pos] != GT {
        lemma_run_until(input, pos, key_stops());
        let key_end = pos + run_until(input, pos, key_stops());
        lemma_run_while(input, key_end, seq![SPACE]);
        let equals = key_end + run_while(input, key_end, seq![SPACE]);
        lemma_run_while(input, equals + 1, seq![SPACE]);
        let quote = equals + 1 + run_while(input, equals + 1, seq![SPACE]);
        lemma_run_until(input, quote + 1, seq![QUOTE]);
        let value_end = quote + 1 + run_until(input, quote + 1, seq![QUOTE]);
        lemma_run_while(input, value_end + 1, seq![SPACE]);
        let next = value_end + 1 + run_while(input, value_end + 1, seq![SPACE]);
        let key = input.subrange(pos, key_end);
        let value = input.subrange(quote + 1, value_end);
        assert(free_of(key, key_stops())) by {
            assert forall|i: int| 0 <= i < key.len() implies !key_stops().contains(
                #[trigger] key[i],
            ) by {
                assert(key[i] == input[pos + i]);
            }
        }
        assert(free_of(value, seq![QUOTE])) by {
            assert forall|i: int| 0 <= i < value.len() implies !seq![QUOTE].contains(
                #[trigger] value[i],
            ) by {
                assert(value[i] == input[quote + 1 + i]);
            }
        }
        lemma_with_entry_canonical(found, key, value);
        lemma_attributes_at(input, next, with_entry(found, key, value));
    }
}

/// Where a header can be read, it ends behind where it began and within
/// the input, and its name and attributes read back from their markup.
pub proof fn lemma_header_at(input: Seq<u8>, pos: int)
    requires
        header_at(input, pos) is Ok,
    ensures
        ({
            let header = header_at(input, pos)->Ok_0;
            &&& header.name.len() > 0
            &&& header.name[0] == input[pos + 1]
            &&& free_of(header.name, name_stops())
            &&& canonical_attributes(header.attributes)
            &&& 0 <= pos
            &&& pos + 1 < header.end <= input.len()
        }),
{
    lemma_run_until(input, pos + 1, name_stops());
    let name_end = pos + 1 + run_until(input, pos + 1, name_stops());
    lemma_run_while(input, name_end, seq![SPACE]);
    let start = name_end + run_while(input, name_end, seq![SPACE]);
    let name = input.subrange(pos + 1, name_end);
    assert(free_of(name, name_stops())) by {
        assert forall|i: int| 0 <= i < name.len() implies !name_stops().contains(
            #[trigger] name[i],
        ) by {
            assert(name[i] == input[pos + 1 + i]);
        }
    }
    lemma_attributes_at(input, start, Seq::empty());
}

/// Where an element can be read, it ends behind where it began and within
/// the input, and the tree reads back from its markup.
pub proof fn lemma_element_at(input: Seq<u8>, pos: int)
    requires
        element_at(input, pos) is Ok,
    ensures
        ({
            let (node, end) = element_at(input, pos)->Ok_0;
            &&& node is Tag
            &&& node->name.len() > 0
            &&& node->name[0] == input[pos + 1]
            &&& canonical(node, false)
            &&& 0 <= pos < end <= input.len()
        }),
    decreases remaining(input, pos), 0int,
{
    lemma_header_at(input, pos);
    let header = header_at(input, pos)->Ok_0;
    lemma_children_at(input, header.end, header.name);
}

/// Where the children of an element can be read, they end within the input,
/// and they read back from their markup. A text comes first among them only
/// where no `<` stands.
pub proof fn lemma_children_at(input: Seq<u8>, pos: int, opened: Seq<u8>)
    requires
        0 <= pos <= input.len(),
        children_at(input, pos, opened) is Ok,
    ensures
        ({
            let (children, end) = children_at(input, pos, opened)->Ok_0;
            &&& canonical_children(children)
            &&& pos <= end <= input.len()
            &&& children.len() > 0 && children[0] is Text ==> pos < input.len() && input[pos] != LT
        }),
    decreases remaining(input, pos), 1int,
{
    let len = input.len() as int;
    if pos >= len {
    } else if input[pos] == LT && pos + 1 < len && input[pos + 1] == SLASH {
        lemma_run_until(input, pos + 2, seq![GT]);
    } else if input[pos] == LT {
        lemma_element_at(input, pos);
        let (element, next) = element_at(input, pos)->Ok_0;
        lemma_children_at(input, next, opened);
        let (rest, end) = children_at(input, next, opened)->Ok_0;
        let children = seq![element] + rest;
        assert(canonical(element, true));
        assert forall|i: int| 0 <= i < children.len() implies canonical(
            #[trigger] children[i],
            true,
        ) by {
            if i > 0 {
                assert(children[i] == rest[i - 1]);
            }
        }
        assert forall|i: int| 0 <= i < children.len() - 1 implies !((#[trigger] children[i]) is Text
            && children[i + 1] is Text) by {
            if i > 0 {
                assert(children[i] == rest[i - 1]);
                assert(children[i + 1] == rest[i]);
            }
        }
    } else {
        lemma_run_until(input, pos + 1, seq![LT]);
        let stop = pos + 1 + run_until(input, pos + 1, seq![LT]);
        lemma_children_at(input, stop, opened);
        let (rest, end) = children_at(input, stop, opened)->Ok_0;
        let text = input.subrange(pos, stop);
        let children = seq![NodeView::Text(text)] + rest;
        assert(free_of(text, seq![LT])) by {
            assert forall|i: int| 0 <= i < text.len() implies !seq![LT].contains(
                #[trigger] text[i],
            ) by {
                assert(text[i] == input[pos + i]);
            }
        }
        assert forall|i: int| 0 <= i < children.len() implies canonical(
            #[trigger] children[i],
            true,
        ) by {
            if i > 0 {
                assert(children[i] == rest[i - 1]);
            }
        }
        assert forall|i: int| 0 <= i < children.len() - 1 implies !((#[trigger] children[i]) is Text
            && children[i + 1] is Text) by {
            if i > 0 {
                assert(children[i] == rest[i - 1]);
                assert(children[i + 1] == rest[i]);
            } else {
                assert(children[1] == rest[0]);
            }
        }
    }
}

/// The tree of a document reads back from its markup.
pub proof fn lemma_document_canonical(input: Seq<u8>)
    requires
        document(input) is Ok,
    ensures
        canonical(document(input)->Ok_0.0, false),
        0 <= document(input)->Ok_0.1 <= input.len(),
{
    if input.len() > 0 && input[0] == LT {
        lemma_element_at(input, 0);
    } else {
        lemma_run_until(input, 0, seq![LT]);
        let stop = run_until(input, 0, seq![LT]) as int;
        let text = input.subrange(0, stop);
        assert forall|i: int| 0 <= i < text.len() implies !seq![LT].contains(
            #[trigger] text[i],
        ) by {
            assert(text[i] == input[i]);
        }
    }
}

/// Whether `input` holds `text` from `pos` on.
pub open spec fn reads(input: Seq<u8>, pos: int, text: Seq<u8>) -> bool {
    &&& 0 <= pos
    &&& pos + text.len() <= input.len()
    &&& forall|j: int| 0 <= j < text.len() ==> input[pos + j] == #[trigger] text[j]
}

/// An input that holds two texts one after the other holds each at its place.
pub proof fn lemma_reads_both(input: Seq<u8>, pos: int, first: Seq<u8>, second: Seq<u8>)
    requires
        reads(input, pos, first + second),
    ensures
        reads(input, pos, first),
        reads(input, pos + first.len(), second),
{
    let both = first + second;
    assert forall|j: int| 0 <= j < first.len() implies input[pos + j] == #[trigger] first[j] by {
        assert(both[j] == first[j]);
    }
    assert forall|j: int| 0 <= j < second.len() implies input[pos + first.len() + j]
        == #[trigger] second[j] by {
        assert(both[first.len() + j] == second[j]);
    }
}

/// The markup of an element starts with `<`, and so does a closing tag.
proof fn lemma_starts_with_lt(node: NodeView)
    requires
        node is Tag,
    ensures
        markup(node).len() > 0,
        markup(node)[0] == LT,
{
}

/// Where the input holds the markup of the attributes from the `i`th on and
/// then `>`, the rest of the header reads as these attributes behind the first `i`.
proof fn lemma_read_attributes(input: Seq<u8>, p: int, all: Seq<Entry>, i: int)
    requires
        canonical_attributes(all),
        0 <= i <= all.len(),
        reads(input, p, attributes_markup(all.skip(i)) + seq![GT]),
    ensures
        attributes_at(input, p + run_while(input, p, seq![SPACE]), all.take(i)) == Ok::<
            (Seq<Entry>, int),
            ParseErrorView,
        >((all, p + attributes_markup(all.skip(i)).len() + 1)),
    decreases all.len() - i,
{
    let now = all.skip(i);
    if i == all.len() {
        assert(attributes_markup(now) =~= Seq::<u8>::empty());
        assert((attributes_markup(now) + seq![GT])[0] == GT);
        assert(input[p] == GT);
        lemma_run_while_is(input, p, seq![SPACE], 0);
        assert(all.take(i) =~= all);
    } else {
        let e = all[i];
        let k = e.0;
        let v = e.1;
        let rest = all.skip(i + 1);
        assert(now[0] == e);
        assert(now.drop_first() =~= rest);
        let tail = attributes_markup(rest) + seq![GT];
        assert(canonical_entry(e));
        assert(attributes_markup(now) + seq![GT] =~= seq![SPACE] + (k + (seq![EQUALS, QUOTE] + (v
            + (seq![QUOTE] + tail)))));
        lemma_reads_both(input, p, seq![SPACE], k + (seq![EQUALS, QUOTE] + (v + (seq![QUOTE] + tail))));
        let q = p + 1;
        lemma_reads_both(input, q, k, seq![EQUALS, QUOTE] + (v + (seq![QUOTE] + tail)));
        let equals = q + k.len();
        lemma_reads_both(input, equals, seq![EQUALS, QUOTE], v + (seq![QUOTE] + tail));
        let quote = equals + 1;
        lemma_reads_both(input, quote + 1, v, seq![QUOTE] + tail);
        let value_end = quote + 1 + v.len();
        lemma_reads_both(input, value_end, seq![QUOTE], tail);
        assert(input[p] == SPACE) by {
            assert(seq![SPACE][0] == SPACE);
        }
        assert(input[equals] == EQUALS) by {
            assert(seq![EQUALS, QUOTE][0] == EQUALS);
        }
        assert(input[quote] == QUOTE) by {
            assert(seq![EQUALS, QUOTE][1] == QUOTE);
        }
        assert(input[value_end] == QUOTE) by {
            assert(seq![QUOTE][0] == QUOTE);
        }
        assert(key_stops()[0] == EQUALS);
        assert(seq![QUOTE][0] == QUOTE);
        assert(seq![SPACE][0] == SPACE);
        assert(input[q] != SPACE && input[q] != GT) by {
            if k.len() > 0 {
                assert(input[q] == k[0]);
                assert(key_stops()[1] == SPACE);
                assert(!key_stops().contains(k[0]));
            }
        }
        lemma_run_while_is(input, p, seq![SPACE], 1);
        assert forall|j: int| q <= j < q + k.len() implies !key_stops().contains(
            #[trigger] input[j],
        ) by {
            assert(input[j] == k[j - q]);
        }
        lemma_run_until_is(input, q, key_stops(), k.len() as int);
        lemma_run_while_is(input, equals, seq![SPACE], 0);
        lemma_run_while_is(input, equals + 1, seq![SPACE], 0);
        assert forall|j: int| quote + 1 <= j < quote + 1 + v.len() implies !seq![QUOTE].contains(
            #[trigger] input[j],
        ) by {
            assert(input[j] == v[j - (quote + 1)]);
        }
        lemma_run_until_is(input, quote + 1, seq![QUOTE], v.len() as int);
        assert(input.subrange(q, equals) =~= k);
        assert(input.subrange(quote + 1, value_end) =~= v);
        let found = all.take(i);
        assert forall|j: int| 0 <= j < found.len() implies comes_before(
            (#[trigger] found[j]).0,
            k,
        ) by {
            assert(found[j] == all[j]);
        }
        lemma_with_last_entry(found, k, v);
        assert(found.push((k, v)) =~= all.take(i + 1));
        lemma_read_attributes(input, value_end + 1, all, i + 1);
        assert(attributes_markup(now).len() == 4 + k.len() + v.len() + attributes_markup(rest).len());
    }
}

/// Where the input holds the markup of an element that reads back, the
/// element is read there, and the reading ends behind the markup.
pub proof fn lemma_read_element(input: Seq<u8>, pos: int, node: NodeView)
    requires
        node is Tag,
        canonical(node, false),
        reads(input, pos, markup(node)),
    ensures
        element_at(input, pos) == Ok::<(NodeView, int), ParseErrorView>(
            (node, pos + markup(node).len()),
        ),
    decreases node, 0int,
{
    let name = node->name;
    let all = node->attributes;
    let children = node->children;
    let written = attributes_markup(all);
    let inside = children_markup(children) + closing_markup(name);
    assert(markup(node) =~= seq![LT] + (name + ((written + seq![GT]) + inside)));
    lemma_reads_both(input, pos, seq![LT], name + ((written + seq![GT]) + inside));
    lemma_reads_both(input, pos + 1, name, (written + seq![GT]) + inside);
    let name_end = pos + 1 + name.len();
    lemma_reads_both(input, name_end, written + seq![GT], inside);
    assert(input[pos] == LT) by {
        assert(seq![LT][0] == LT);
    }
    assert(name_stops().contains(input[name_end])) by {
        assert(name_stops()[0] == SPACE && name_stops()[1] == GT);
        let w = written + seq![GT];
        assert(input[name_end] == w[0]);
        if all.len() == 0 {
            assert(w[0] == GT);
        } else {
            assert(written =~= entry_markup(all[0]) + attributes_markup(all.drop_first()));
            assert(w[0] == SPACE);
        }
    }
    assert forall|j: int| pos + 1 <= j < name_end implies !name_stops().contains(
        #[trigger] input[j],
    ) by {
        assert(input[j] == name[j - (pos + 1)]);
    }
    lemma_run_until_is(input, pos + 1, name_stops(), name.len() as int);
    assert(input.subrange(pos + 1, name_end) =~= name);
    assert(all.skip(0) =~= all);
    assert(all.take(0) =~= Seq::<Entry>::empty());
    lemma_read_attributes(input, name_end, all, 0);
    let end = name_end + written.len() + 1;
    assert(free_of(name, seq![GT])) by {
        assert forall|j: int| 0 <= j < name.len() implies !seq![GT].contains(#[trigger] name[j]) by {
            assert(name_stops()[1] == GT);
            assert(!name_stops().contains(name[j]));
        }
    }
    lemma_read_children(input, end, children, name);
    assert(markup(node).len() == 1 + name.len() + written.len() + 1 + inside.len());
}

/// Where the input holds the markup of children that read back and then
/// the closing tag of their element, the children are read there, and the
/// reading ends behind the closing tag.
pub proof fn lemma_read_children(input: Seq<u8>, pos: int, children: Seq<NodeView>, name: Seq<u8>)
    requires
        canonical_children(children),
        free_of(name, seq![GT]),
        reads(input, pos, children_markup(children) + closing_markup(name)),
    ensures
        children_at(input, pos, name) == Ok::<(Seq<NodeView>, int), ParseErrorView>(
            (children, pos + children_markup(children).len() + closing_markup(name).len()),
        ),
    decreases children, 1int,
{
    let closing = closing_markup(name);
    assert(closing =~= seq![LT, SLASH] + (name + seq![GT]));
    assert(seq![GT][0] == GT);
    assert(seq![LT][0] == LT);
    if children.len() == 0 {
        assert(children_markup(children) + closing =~= closing);
        lemma_reads_both(input, pos, seq![LT, SLASH], name + seq![GT]);
        lemma_reads_both(input, pos + 2, name, seq![GT]);
        assert(input[pos] == LT && input[pos + 1] == SLASH) by {
            assert(seq![LT, SLASH][0] == LT && seq![LT, SLASH][1] == SLASH);
        }
        let close = pos + 2 + name.len();
        assert(input[close] == GT);
        assert forall|j: int| pos + 2 <= j < close implies !seq![GT].contains(#[trigger] input[j]) by {
            assert(input[j] == name[j - (pos + 2)]);
        }
        lemma_run_until_is(input, pos + 2, seq![GT], name.len() as int);
        assert(input.subrange(pos + 2, close) =~= name);
        assert(children =~= Seq::<NodeView>::empty());
    } else {
        let first = children[0];
        let rest = children.drop_first();
        let after = children_markup(rest) + closing;
        assert(children_markup(children) + closing =~= markup(first) + after);
        lemma_reads_both(input, pos, markup(first), after);
        let next = pos + markup(first).len();
        assert(canonical(first, true));
        assert(canonical_children(rest)) by {
            assert forall|i: int| 0 <= i < rest.len() implies canonical(#[trigger] rest[i], true) by {
                assert(rest[i] == children[i + 1]);
            }
            assert forall|i: int| 0 <= i < rest.len() - 1 implies !((#[trigger] rest[i]) is Text
                && rest[i + 1] is Text) by {
                assert(rest[i] == children[i + 1]);
                assert(rest[i + 1] == children[i + 2]);
            }
        }
        lemma_read_children(input, next, rest, name);
        assert(seq![first] + rest =~= children);
        match first {
            NodeView::Text(text) => {
                assert(input[pos] == text[0]);
                assert(after.len() > 0 && after[0] == LT) by {
                    if rest.len() == 0 {
                        assert(children_markup(rest) =~= Seq::<u8>::empty());
                        assert(after =~= closing);
                    } else {
                        assert(rest[0] == children[1]);
                        assert(rest[0] is Tag);
                        lemma_starts_with_lt(rest[0]);
                        assert(after[0] == markup(rest[0])[0]);
                    }
                }
                assert(input[next] == after[0]);
                assert forall|j: int| pos + 1 <= j < next implies !seq![LT].contains(
                    #[trigger] input[j],
                ) by {
                    assert(input[j] == text[j - pos]);
                }
                lemma_run_until_is(input, pos + 1, seq![LT], text.len() - 1);
                assert(input.subrange(pos, next) =~= text);
            },
            NodeView::Tag { name: inner, .. } => {
                lemma_starts_with_lt(first);
                assert(input[pos] == markup(first)[0]);
                assert(markup(first)[1] == inner[0]);
                assert(input[pos + 1] == markup(first)[1]);
                lemma_read_element(input, pos, first);
            },
        }
    }
}

/// The markup of a tree that reads back is a document, which is that tree.
pub proof fn lemma_markup_reads_back(node: NodeView)
    requires
        canonical(node, false),
    ensures
        document(markup(node)) == Ok::<(NodeView, int), ParseErrorView>(
            (node, markup(node).len() as int),
        ),
{
    let input = markup(node);
    match node {
        NodeView::Text(text) => {
            assert(!text.contains(LT)) by {
                if text.contains(LT) {
                    let i = choose|i: int| 0 <= i < text.len() && text[i] == LT;
                    assert(seq![LT][0] == LT);
                    assert(seq![LT].contains(text[i]));
                }
            }
            lemma_text_document(text);
        },
        NodeView::Tag { .. } => {
            lemma_starts_with_lt(node);
            lemma_read_element(input, 0, node);
        },
    }
}

/// Round trip: the canonical markup of a parsed tree parses, whole, to the same tree.
pub proof fn lemma_round_trip(input: Seq<u8>)
    requires
        document(input) is Ok,
    ensures
        ({
            let tree = document(input)->Ok_0.0;
            document(markup(tree)) == Ok::<(NodeView, int), ParseErrorView>(
                (tree, markup(tree).len() as int),
            )
        }),
{
    lemma_document_canonical(input);
    lemma_markup_reads_back(document(input)->Ok_0.0);
}

} // verus!

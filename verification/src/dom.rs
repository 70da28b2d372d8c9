//! The document tree: text leaves and tag elements.

use crate::attributes::{Attributes, Entry};
use vstd::prelude::*;
use vstd::string::*;
use vstd::utf8::*;

verus! {

/// The mathematical model of a tree. Every string stands as the bytes of its
/// UTF-8 form, which is how the markup holds it.
pub enum NodeView {
    /// A run of text.
    Text(Seq<u8>),
    /// An element: its name, its attributes in the order of their keys, and
    /// its children in the order of the document.
    Tag { name: Seq<u8>, attributes: Seq<Entry>, children: Seq<NodeView> },
}

/// One node of a document tree.
#[derive(Debug, PartialEq, Eq)]
pub struct Node {
    node: NodeType,
}

/// The two forms of a node.
#[derive(Debug, PartialEq, Eq)]
pub enum NodeType {
    Text(String),
    Tag(TagNode),
}

/// An element. Its name is not empty.
#[derive(Debug, PartialEq, Eq)]
pub struct TagNode {
    name: String,
    children: Vec<Node>,
    attr: Attributes,
}

/// The model of `node`.
pub closed spec fn tree_of(node: Node) -> NodeView
    decreases node,
{
    match node.node {
        NodeType::Text(text) => NodeView::Text(encode_utf8(text@)),
        NodeType::Tag(tag) => NodeView::Tag {
            name: encode_utf8(tag.name@),
            attributes: tag.attr.listing(),
            children: Seq::new(
                tag.children@.len(),
                |i: int|
                    if 0 <= i < tag.children@.len() {
                        tree_of(tag.children@[i])
                    } else {
                        NodeView::Text(Seq::empty())
                    },
            ),
        },
    }
}

/// The models of `nodes`, one for one.
pub open spec fn trees_of(nodes: Seq<Node>) -> Seq<NodeView> {
    Seq::new(nodes.len(), |i: int| nodes[i]@)
}

impl View for Node {
    type V = NodeView;

    open spec fn view(&self) -> NodeView {
        tree_of(*self)
    }
}

impl View for NodeType {
    type V = NodeView;

    open spec fn view(&self) -> NodeView {
        match *self {
            NodeType::Text(text) => NodeView::Text(encode_utf8(text@)),
            NodeType::Tag(tag) => tag@,
        }
    }
}

impl View for TagNode {
    type V = NodeView;

    closed spec fn view(&self) -> NodeView {
        NodeView::Tag {
            name: encode_utf8(self.name@),
            attributes: self.attr.listing(),
            children: trees_of(self.children@),
        }
    }
}

impl Node {
    /// A text leaf that holds `content`.
    pub(crate) fn text(content: String) -> (node: Node)
        ensures
            node@ == NodeView::Text(encode_utf8(content@)),
    {
        Node { node: NodeType::Text(content) }
    }

    /// An element with the given name, attributes and children.
    pub(crate) fn tag(name: String, attributes: Attributes, children: Vec<Node>) -> (node: Node)
        requires
            name@.len() > 0,
        ensures
            node@ == (NodeView::Tag {
                name: encode_utf8(name@),
                attributes: attributes.listing(),
                children: trees_of(children@),
            }),
    {
        let node = Node { node: NodeType::Tag(TagNode { name, children, attr: attributes }) };
        assert(node@->children =~= trees_of(children@));
        node
    }

    /// Which of the two forms this node has, with what it holds.
    pub fn kind(&self) -> (kind: &NodeType)
        ensures
            kind@ == self@,
    {
        assert(self.node@ == self@) by {
            match self.node {
                NodeType::Text(text) => {},
                NodeType::Tag(tag) => {
                    assert(tag@->children =~= self@->children);
                },
            }
        }
        &self.node
    }
}

impl TagNode {
    #[verifier::type_invariant]
    closed spec fn named(&self) -> bool {
        self.name@.len() > 0
    }

    /// The element's name, which is not empty.
    pub fn name(&self) -> (name: &str)
        ensures
            self@ is Tag,
            name.spec_bytes() == self@->name,
            name@.len() > 0,
    {
        proof {
            use_type_invariant(self);
        }
        self.name.as_str()
    }

    /// The element's attributes.
    pub fn attributes(&self) -> (attributes: &Attributes)
        ensures
            self@ is Tag,
            attributes.listing() == self@->attributes,
    {
        &self.attr
    }

    /// The element's children, in the order of the document.
    pub fn children(&self) -> (children: &Vec<Node>)
        ensures
            self@ is Tag,
            trees_of(children@) == self@->children,
    {
        &self.children
    }
}

} // verus!

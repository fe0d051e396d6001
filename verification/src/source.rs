//! Parsed documents and edit scripts, as plain values.

use crate::range::Range;
use vstd::prelude::*;

verus! {

/// What a node of a parsed document is called.
#[derive(Debug, PartialEq, Eq)]
pub enum NodeName {
    /// An element, with the namespace of its tag, if it has one, and the
    /// local name.
    Tag { namespace: Option<String>, name: String },
    /// An attribute, with its namespace, if it has one, and its local name.
    Attribute { namespace: Option<String>, name: String },
    /// A run of text.
    Text,
}

/// The mathematical value of a [`NodeName`].
pub enum NodeNameView {
    Tag { namespace: Option<Seq<char>>, name: Seq<char> },
    Attribute { namespace: Option<Seq<char>>, name: Seq<char> },
    Text,
}

/// The value of a namespace that may be absent.
pub open spec fn namespace_value(namespace: Option<String>) -> Option<Seq<char>> {
    match namespace {
        Some(uri) => Some(uri@),
        None => None,
    }
}

impl View for NodeName {
    type V = NodeNameView;

    open spec fn view(&self) -> NodeNameView {
        match self {
            NodeName::Tag { namespace, name } => NodeNameView::Tag {
                namespace: namespace_value(*namespace),
                name: name@,
            },
            NodeName::Attribute { namespace, name } => NodeNameView::Attribute {
                namespace: namespace_value(*namespace),
                name: name@,
            },
            NodeName::Text => NodeNameView::Text,
        }
    }
}

/// One node of a parsed document together with everything below it.
#[derive(Debug, PartialEq, Eq)]
pub struct SourceNode {
    /// The identity of the node inside its own document.
    pub id: String,
    pub name: NodeName,
    /// Where the node stands in the text it was parsed from.
    pub range: Range,
    pub is_attribute: bool,
    /// The child nodes in document order.
    pub children: Vec<SourceNode>,
}

/// The mathematical value of a [`SourceNode`].
pub struct NodeView {
    pub id: Seq<char>,
    pub name: NodeNameView,
    pub range: Range,
    pub is_attribute: bool,
    pub children: Seq<NodeView>,
}

/// The value of a node: its own fields, and the values of its children in
/// the same order.
pub open spec fn node_value(node: SourceNode) -> NodeView
    decreases node,
{
    NodeView {
        id: node.id@,
        name: node.name@,
        range: node.range,
        is_attribute: node.is_attribute,
        children: Seq::new(
            node.children@.len(),
            |i: int|
                if 0 <= i < node.children@.len() {
                    node_value(node.children@[i])
                } else {
                    arbitrary()
                },
        ),
    }
}

impl View for SourceNode {
    type V = NodeView;

    open spec fn view(&self) -> NodeView {
        node_value(*self)
    }
}

/// What two documents must share at their roots to be compared node by node:
/// the namespace of an element, empty where it has none, a colon, and its
/// local name.
pub open spec fn element_mark(name: NodeNameView) -> Seq<char> {
    match name {
        NodeNameView::Tag { namespace, name } => (match namespace {
            Some(uri) => uri,
            None => Seq::empty(),
        }) + seq![':'] + name,
        _ => Seq::empty(),
    }
}

/// Whether `node` is `tree` or stands somewhere below it.
pub open spec fn within(tree: NodeView, node: NodeView) -> bool
    decreases tree,
{
    node == tree || exists|i: int|
        0 <= i < tree.children.len() && within(#[trigger] tree.children[i], node)
}

/// Whether some node of `tree` has the identity `id`.
pub open spec fn names_node(tree: NodeView, id: Seq<char>) -> bool {
    exists|node: NodeView| #[trigger] within(tree, node) && node.id == id
}

/// Whether some node of `tree` stands at `range`.
pub open spec fn has_node_at(tree: NodeView, range: Range) -> bool {
    exists|node: NodeView| #[trigger] within(tree, node) && node.range == range
}

/// One operation of an edit script that turns a first document into a second.
///
/// An edit names the node of the first document that it is about by its
/// identity, and carries what it brings from the second document.
#[derive(Debug, PartialEq, Eq)]
pub enum Edit {
    /// A node of the second document becomes a child of a node of the first.
    Insert { child_node: SourceNode, to_node: String },
    /// A node of the first document goes, with all below it.
    Delete { node: String },
    /// A leaf of the first document takes the content found at `new_range`
    /// of the second.
    Update { node: String, new_range: Range },
    /// The two documents have nothing in common.
    ReplaceRoot,
}

/// The mathematical value of an [`Edit`].
pub enum EditView {
    Insert { child_node: NodeView, to_node: Seq<char> },
    Delete { node: Seq<char> },
    Update { node: Seq<char>, new_range: Range },
    ReplaceRoot,
}

impl View for Edit {
    type V = EditView;

    open spec fn view(&self) -> EditView {
        match self {
            Edit::Insert { child_node, to_node } => EditView::Insert {
                child_node: child_node@,
                to_node: to_node@,
            },
            Edit::Delete { node } => EditView::Delete { node: node@ },
            Edit::Update { node, new_range } => EditView::Update {
                node: node@,
                new_range: *new_range,
            },
            Edit::ReplaceRoot => EditView::ReplaceRoot,
        }
    }
}

/// A copy of a namespace that may be absent.
fn clone_namespace(namespace: &Option<String>) -> (r: Option<String>)
    ensures
        namespace_value(r) == namespace_value(*namespace),
{
    match namespace {
        Some(uri) => Some(uri.clone()),
        None => None,
    }
}

impl Clone for NodeName {
    fn clone(&self) -> (r: Self)
        ensures
            r@ == self@,
    {
        match self {
            NodeName::Tag { namespace, name } => NodeName::Tag {
                namespace: clone_namespace(namespace),
                name: name.clone(),
            },
            NodeName::Attribute { namespace, name } => NodeName::Attribute {
                namespace: clone_namespace(namespace),
                name: name.clone(),
            },
            NodeName::Text => NodeName::Text,
        }
    }
}

impl Clone for SourceNode {
    fn clone(&self) -> (r: Self)
        ensures
            r@ == self@,
        decreases self,
    {
        let mut children: Vec<SourceNode> = Vec::new();
        let mut i: usize = 0;
        while i < self.children.len()
            invariant
                i <= self.children.len(),
                children.len() == i,
                forall|k: int| 0 <= k < i ==> (#[trigger] children@[k])@ == self.children@[k]@,
            decreases self.children.len() - i,
        {
            children.push(self.children[i].clone());
            i = i + 1;
        }
        let r = SourceNode {
            id: self.id.clone(),
            name: self.name.clone(),
            range: self.range,
            is_attribute: self.is_attribute,
            children,
        };
        assert(r@.children =~= self@.children);
        r
    }
}

impl Clone for Edit {
    fn clone(&self) -> (r: Self)
        ensures
            r@ == self@,
    {
        match self {
            Edit::Insert { child_node, to_node } => Edit::Insert {
                child_node: child_node.clone(),
                to_node: to_node.clone(),
            },
            Edit::Delete { node } => Edit::Delete { node: node.clone() },
            Edit::Update { node, new_range } => Edit::Update {
                node: node.clone(),
                new_range: *new_range,
            },
            Edit::ReplaceRoot => Edit::ReplaceRoot,
        }
    }
}

/// The values of a list of edits, in the same order.
pub open spec fn edit_views(edits: Seq<Edit>) -> Seq<EditView> {
    Seq::new(edits.len(), |i: int| edits[i]@)
}

} // verus!

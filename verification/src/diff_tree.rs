//! The classified tree that a diff is shown as.

use crate::range::Range;
use vstd::prelude::*;

verus! {

/// How two documents relate as a whole.
#[derive(Debug, Clone, Copy, PartialEq, Eq, Structural)]
pub enum DiffTreeKind {
    /// No edit separates them.
    Same,
    /// They differ at the root: nothing is shared.
    TotalDiff,
    /// They share a root and differ below it.
    PartialDiff,
}

/// What happened to one node of the diff tree.
#[derive(Debug, Clone, Copy, PartialEq, Eq, Structural)]
pub enum DiffNodeKind {
    NoDiff,
    DeletedNode,
    DeletedSubNode,
    AddedNode,
    AddedSubNode,
    UpdatedNode,
}

impl DiffNodeKind {
    /// The kinds given to nodes that come from the second document.
    pub open spec fn is_added(self) -> bool {
        self == DiffNodeKind::AddedNode || self == DiffNodeKind::AddedSubNode
    }

    /// The kinds a node can inherit from its parent. `DeletedNode` and
    /// `UpdatedNode` only ever mark the node at which they were detected.
    pub open spec fn is_inheritable(self) -> bool {
        self != DiffNodeKind::DeletedNode && self != DiffNodeKind::UpdatedNode
    }

    /// The kind passed on to the children of a node that no edit names.
    pub open spec fn child_kind(self) -> DiffNodeKind {
        if self == DiffNodeKind::AddedNode {
            DiffNodeKind::AddedSubNode
        } else {
            self
        }
    }
}

/// One node of a diff tree.
#[derive(Debug, PartialEq, Eq)]
pub struct DiffNode {
    pub name: String,
    pub range1: Option<Range>,
    pub range2: Option<Range>,
    pub kind: DiffNodeKind,
    pub insert_pos: Option<usize>,
    pub children: Vec<DiffNode>,
    pub is_attribute: bool,
}

/// The mathematical value of a [`DiffNode`].
pub struct DiffNodeView {
    pub name: Seq<char>,
    pub range1: Option<Range>,
    pub range2: Option<Range>,
    pub kind: DiffNodeKind,
    pub insert_pos: Option<usize>,
    pub children: Seq<DiffNodeView>,
    pub is_attribute: bool,
}

/// The value of a diff node: its own fields, and the values of its children
/// in the same order.
pub open spec fn diff_node_value(node: DiffNode) -> DiffNodeView
    decreases node,
{
    DiffNodeView {
        name: node.name@,
        range1: node.range1,
        range2: node.range2,
        kind: node.kind,
        insert_pos: node.insert_pos,
        children: Seq::new(
            node.children@.len(),
            |i: int|
                if 0 <= i < node.children@.len() {
                    diff_node_value(node.children@[i])
                } else {
                    arbitrary()
                },
        ),
        is_attribute: node.is_attribute,
    }
}

impl View for DiffNode {
    type V = DiffNodeView;

    open spec fn view(&self) -> DiffNodeView {
        diff_node_value(*self)
    }
}

/// The values of a list of diff nodes, in the same order.
pub open spec fn diff_node_values(nodes: Seq<DiffNode>) -> Seq<DiffNodeView> {
    Seq::new(nodes.len(), |i: int| nodes[i]@)
}

impl DiffNodeView {
    /// The ranges that each kind of change carries, here and everywhere below:
    /// a deleted node has a place in the first text only, an added node in the
    /// second only, and an updated node has one in both and nothing below it.
    pub open spec fn well_shaped(self) -> bool
        decreases self,
    {
        &&& self.kind == DiffNodeKind::DeletedNode ==> self.range1 is Some && self.range2 is None
        &&& self.kind == DiffNodeKind::UpdatedNode ==> self.range1 is Some && self.range2 is Some
            && self.children.len() == 0
        &&& self.kind == DiffNodeKind::AddedNode ==> self.range1 is None && self.range2 is Some
        &&& forall|i: int|
            0 <= i < self.children.len() ==> (#[trigger] self.children[i]).well_shaped()
    }
}

impl Clone for DiffNode {
    fn clone(&self) -> (r: Self)
        ensures
            r@ == self@,
        decreases self, 1nat,
    {
        let r = DiffNode {
            name: self.name.clone(),
            range1: self.range1,
            range2: self.range2,
            kind: self.kind,
            insert_pos: self.insert_pos,
            children: self.children(),
            is_attribute: self.is_attribute,
        };
        assert(r@.children =~= self@.children);
        r
    }
}

impl DiffNode {
    /// The label under which the node is shown.
    pub fn name(&self) -> (r: String)
        ensures
            r@ == self@.name,
    {
        self.name.clone()
    }

    /// Where the node stands in the first text, if it stands there.
    pub fn range1(&self) -> (r: Option<Range>)
        ensures
            r == self@.range1,
    {
        self.range1
    }

    /// Where the node stands in the second text, if it stands there.
    pub fn range2(&self) -> (r: Option<Range>)
        ensures
            r == self@.range2,
    {
        self.range2
    }

    pub fn kind(&self) -> (r: DiffNodeKind)
        ensures
            r == self@.kind,
    {
        self.kind
    }

    /// The nodes below this one: those of its own children first, inserted ones after.
    pub fn children(&self) -> (r: Vec<DiffNode>)
        ensures
            diff_node_values(r@) == self@.children,
        decreases self, 0nat,
    {
        let mut children: Vec<DiffNode> = Vec::new();
        let mut i: usize = 0;
        while i < self.children.len()
            invariant
                i <= self.children.len(),
                children.len() == i,
                forall|k: int| 0 <= k < i ==> (#[trigger] children@[k])@ == self.children@[k]@,
            decreases self.children.len() - i,
        {
            children.push(self.children[i].clone());
            i = i + 1;
        }
        children
    }

    /// The offset into the first text at which an added node is to be spliced.
    pub fn insert_pos(&self) -> (r: Option<usize>)
        ensures
            r == self@.insert_pos,
    {
        self.insert_pos
    }

    pub fn is_attribute(&self) -> (r: bool)
        ensures
            r == self@.is_attribute,
    {
        self.is_attribute
    }
}

/// The result of comparing two documents.
#[derive(Debug, PartialEq, Eq)]
pub struct DiffTree {
    pub kind: DiffTreeKind,
    pub root: Option<DiffNode>,
    pub diff_count: usize,
}

/// The mathematical value of a [`DiffTree`].
pub struct DiffTreeView {
    pub kind: DiffTreeKind,
    pub root: Option<DiffNodeView>,
    pub diff_count: usize,
}

impl View for DiffTree {
    type V = DiffTreeView;

    open spec fn view(&self) -> DiffTreeView {
        DiffTreeView {
            kind: self.kind,
            root: match self.root {
                Some(node) => Some(node@),
                None => None,
            },
            diff_count: self.diff_count,
        }
    }
}

impl DiffTreeView {
    /// A root is there exactly when the documents differ below a shared root,
    /// and the nodes under it carry the ranges that their kinds call for. No
    /// edit counts for documents that are the same, one for a total diff, and
    /// at least one for a partial diff.
    pub open spec fn well_formed(self) -> bool {
        &&& self.root is Some <==> self.kind == DiffTreeKind::PartialDiff
        &&& self.root matches Some(node) ==> node.well_shaped()
        &&& self.kind == DiffTreeKind::Same ==> self.diff_count == 0
        &&& self.kind == DiffTreeKind::TotalDiff ==> self.diff_count == 1
        &&& self.kind == DiffTreeKind::PartialDiff ==> self.diff_count >= 1
    }
}

impl Clone for DiffTree {
    fn clone(&self) -> (r: Self)
        ensures
            r@ == self@,
    {
        DiffTree { kind: self.kind, root: self.root(), diff_count: self.diff_count }
    }
}

impl DiffTree {
    pub fn kind(&self) -> (r: DiffTreeKind)
        ensures
            r == self@.kind,
    {
        self.kind
    }

    /// The root of the diff tree; there is one only for a partial diff.
    pub fn root(&self) -> (r: Option<DiffNode>)
        ensures
            match r {
                Some(node) => self@.root == Some(node@),
                None => self@.root is None,
            },
    {
        match &self.root {
            Some(node) => Some(node.clone()),
            None => None,
        }
    }

    /// The number of edits that the tree was built from.
    pub fn diff_count(&self) -> (r: usize)
        ensures
            r == self@.diff_count,
    {
        self.diff_count
    }
}

} // verus!

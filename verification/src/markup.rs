//! The boundary to the markup parser and the tree differ.
//!
//! Parsing and diffing are done by `x_diff_rs`. What this library believes of
//! it is stated here, on the functions that call it; everything behind them is
//! proved.

use crate::builder::{diff_tree_from_edits, diff_tree_of, edit_between, script_between};
use crate::diff_tree::{DiffTree, DiffTreeKind, DiffTreeView};
use crate::range::Range;
use crate::source::{
    edit_views, element_mark, Edit, EditView, NodeName, NodeView, SourceNode,
};
use vstd::prelude::*;
use vstd::string::StringExecFns;
use x_diff_rs::tree::{XNode, XTree};

verus! {

#[verifier::external_type_specification]
#[verifier::external_body]
pub struct ExXTree<'doc>(XTree<'doc>);

#[verifier::external_type_specification]
#[verifier::external_body]
pub struct ExXNode<'a, 'doc: 'a>(XNode<'a, 'doc>);

/// What the parser makes of a text: the root of its tree, or the diagnostic
/// with which it turns the text down.
pub uninterp spec fn parsed_markup(text: Seq<char>) -> Result<NodeView, Seq<char>>;

/// The text that a tree was parsed from.
pub uninterp spec fn tree_source(tree: XTree) -> Seq<char>;

/// What a tree holds: its root element, and every node below it.
pub uninterp spec fn tree_view(tree: XTree) -> NodeView;

/// What a node of a parsed tree holds: its identity, name, range and
/// attribute flag, and the same of every node below it.
pub uninterp spec fn node_view(node: XNode) -> NodeView;

/// An edit as the differ hands it out, its nodes still inside their trees.
enum RawEdit<'a, 'd1: 'a, 'd2: 'a> {
    Insert { child_node: XNode<'a, 'd2>, to_node: XNode<'a, 'd1> },
    Delete(XNode<'a, 'd1>),
    Update { old: XNode<'a, 'd1>, new: XNode<'a, 'd2> },
    ReplaceRoot,
}

/// The edit in plain values: the identity of the first-document node that it
/// names, and what it brings from the second document.
spec fn raw_edit_view(raw: RawEdit) -> EditView {
    match raw {
        RawEdit::Insert { child_node, to_node } => EditView::Insert {
            child_node: node_view(child_node),
            to_node: node_view(to_node).id,
        },
        RawEdit::Delete(node) => EditView::Delete { node: node_view(node).id },
        RawEdit::Update { old, new } => EditView::Update {
            node: node_view(old).id,
            new_range: node_view(new).range,
        },
        RawEdit::ReplaceRoot => EditView::ReplaceRoot,
    }
}

/// `XTree::parse`, the failure rendered with `Debug`. Believed: the outcome
/// depends on the text alone; the tree holds what the parser made of the
/// text, and remembers the text it came from.
#[verifier::external_body]
fn parse_markup<'doc>(text: &'doc str) -> (r: Result<XTree<'doc>, String>)
    ensures
        r matches Ok(tree) ==> parsed_markup(text@) is Ok && parsed_markup(text@)->Ok_0
            == tree_view(tree) && tree_source(tree) == text@,
        r matches Err(diagnostic) ==> parsed_markup(text@) is Err && parsed_markup(text@)->Err_0
            == diagnostic@,
{
    XTree::parse(text).map_err(|e| format!("{e:?}"))
}

/// `XTree::root`: the root element that the tree holds.
#[verifier::external_body]
fn tree_root<'a>(tree: &'a XTree) -> (r: XNode<'a, 'a>)
    ensures
        node_view(r) == tree_view(*tree),
{
    tree.root()
}

/// `x_diff_rs::diff::diff`, each edit taken apart. Believed: two trees of one
/// text have no edit between them. Two roots that differ in namespace or
/// local name have the one edit that replaces the root; two that share both
/// have no such edit. Every other edit names a node of the first tree, and
/// what it brings is a node of the second. Of the script nothing else is
/// assumed: its order can differ from run to run.
#[verifier::external_body]
fn diff_trees<'a, 'd1, 'd2>(tree1: &'d1 XTree<'d1>, tree2: &'d2 XTree<'d2>) -> (r: Vec<
    RawEdit<'a, 'd1, 'd2>,
>)
    ensures
        tree_source(*tree1) == tree_source(*tree2) ==> r@.len() == 0,
        element_mark(tree_view(*tree1).name) != element_mark(tree_view(*tree2).name) ==> r@.len()
            == 1 && r@[0] is ReplaceRoot,
        element_mark(tree_view(*tree1).name) == element_mark(tree_view(*tree2).name) ==> forall|
            i: int,
        | 0 <= i < r@.len() ==> !(#[trigger] r@[i] is ReplaceRoot),
        forall|i: int|
            0 <= i < r@.len() ==> edit_between(
                raw_edit_view(#[trigger] r@[i]),
                tree_view(*tree1),
                tree_view(*tree2),
            ),
{
    let edits = x_diff_rs::diff::diff(tree1, tree2).into_iter();
    edits.map(|e| match e {
        x_diff_rs::diff::Edit::Insert { child_node, to_node } => {
            RawEdit::Insert { child_node, to_node }
        },
        x_diff_rs::diff::Edit::Delete(node) => RawEdit::Delete(node),
        x_diff_rs::diff::Edit::Update { old, new } => RawEdit::Update { old, new },
        x_diff_rs::diff::Edit::ReplaceRoot => RawEdit::ReplaceRoot,
    }).collect()
}

/// `XNode::id`, rendered with `Display` as the differ itself renders it.
#[verifier::external_body]
fn node_id(node: &XNode) -> (r: String)
    ensures
        r@ == node_view(*node).id,
{
    node.id().to_string()
}

/// `XNode::name`, with the namespace and the local name of a tag or an
/// attribute.
#[verifier::external_body]
fn node_name(node: &XNode) -> (r: NodeName)
    ensures
        r@ == node_view(*node).name,
{
    match node.name() {
        x_diff_rs::tree::XNodeName::TagName(tag) => NodeName::Tag {
            namespace: tag.namespace().map(str::to_string),
            name: tag.name().to_string(),
        },
        x_diff_rs::tree::XNodeName::AttributeName(attribute) => NodeName::Attribute {
            namespace: attribute.namespace().map(str::to_string),
            name: attribute.name().to_string(),
        },
        x_diff_rs::tree::XNodeName::Text => NodeName::Text,
    }
}

/// `XNode::range`.
#[verifier::external_body]
fn node_range(node: &XNode) -> (r: Range)
    ensures
        r == node_view(*node).range,
{
    let range = node.range();
    Range { start: range.start, end: range.end }
}

/// `XNode::is_attribute`.
#[verifier::external_body]
fn node_is_attribute(node: &XNode) -> (r: bool)
    ensures
        r == node_view(*node).is_attribute,
{
    node.is_attribute()
}

/// `XNode::children`. Believed: the children are those that the node holds,
/// in order; a tree being finite, each holds less than the node.
#[verifier::external_body]
fn node_children<'a, 'doc>(node: &XNode<'a, 'doc>) -> (r: Vec<XNode<'a, 'doc>>)
    ensures
        r@.len() == node_view(*node).children.len(),
        forall|i: int|
            0 <= i < r@.len() ==> node_view(#[trigger] r@[i]) == node_view(*node).children[i],
{
    node.children()
}

/// Copies a node of a parsed tree, with all below it, into plain values.
fn lift_node(node: XNode) -> (r: SourceNode)
    ensures
        r@ == node_view(node),
    decreases node_view(node),
{
    let below = node_children(&node);
    let mut children: Vec<SourceNode> = Vec::new();
    let mut i: usize = 0;
    while i < below.len()
        invariant
            i <= below.len(),
            children@.len() == i,
            below@.len() == node_view(node).children.len(),
            forall|k: int|
                0 <= k < below@.len() ==> node_view(#[trigger] below@[k]) == node_view(
                    node,
                ).children[k],
            forall|k: int| 0 <= k < i ==> (#[trigger] children@[k])@ == node_view(node).children[k],
        decreases below.len() - i,
    {
        children.push(lift_node(below[i]));
        i = i + 1;
    }
    let r = SourceNode {
        id: node_id(&node),
        name: node_name(&node),
        range: node_range(&node),
        is_attribute: node_is_attribute(&node),
        children,
    };
    assert(r@.children =~= node_view(node).children);
    r
}

/// Copies an edit into plain values: the identity of the first-document node
/// it is filed under, and what it brings from the second document.
fn lift_edit(raw: &RawEdit) -> (r: Edit)
    ensures
        r@ == raw_edit_view(*raw),
{
    match raw {
        RawEdit::Insert { child_node, to_node } => Edit::Insert {
            child_node: lift_node(*child_node),
            to_node: node_id(to_node),
        },
        RawEdit::Delete(node) => Edit::Delete { node: node_id(node) },
        RawEdit::Update { old, new } => Edit::Update {
            node: node_id(old),
            new_range: node_range(new),
        },
        RawEdit::ReplaceRoot => Edit::ReplaceRoot,
    }
}

/// The message for a text that does not parse: which of the two it was, and
/// the parser's diagnostic.
pub open spec fn parse_failure(second: bool, diagnostic: Seq<char>) -> Seq<char> {
    if second {
        "Cannot parse tree2. "@ + diagnostic
    } else {
        "Cannot parse tree1. "@ + diagnostic
    }
}

/// The diff tree of two documents that no edit separates.
pub open spec fn same_tree() -> DiffTreeView {
    DiffTreeView { kind: DiffTreeKind::Same, root: None, diff_count: 0 }
}

/// Compares two markup texts and builds the diff tree of the first.
///
/// Fails where a text does not parse, the first text before the second. Else
/// the tree is the one that `diff_tree_of` gives for the root of the first
/// document and the edit script of the differ. Which script that is the differ
/// decides, within bounds: it lies between the two documents, so the tree is
/// a total diff exactly where the two roots differ in namespace or local
/// name; and two equal texts have the empty script, hence the tree `Same`.
pub fn build_diff_tree(xml1: &str, xml2: &str) -> (r: Result<DiffTree, String>)
    ensures
        match (parsed_markup(xml1@), parsed_markup(xml2@)) {
            (Err(diagnostic), _) => r matches Err(message) && message@ == parse_failure(
                false,
                diagnostic,
            ),
            (Ok(_), Err(diagnostic)) => r matches Err(message) && message@ == parse_failure(
                true,
                diagnostic,
            ),
            (Ok(first), Ok(second)) => {
                &&& r matches Ok(tree)
                &&& tree@.well_formed()
                &&& tree@.kind == DiffTreeKind::TotalDiff <==> element_mark(first.name)
                    != element_mark(second.name)
                &&& xml1@ == xml2@ ==> tree@ == same_tree()
                &&& exists|edits: Seq<EditView>|
                    script_between(edits, first, second) && tree@ == diff_tree_of(first, edits)
            },
        },
{
    let tree1 = match parse_markup(xml1) {
        Ok(tree) => tree,
        Err(diagnostic) => {
            let mut message = String::from_str("Cannot parse tree1. ");
            message.append(diagnostic.as_str());
            return Err(message);
        },
    };
    let tree2 = match parse_markup(xml2) {
        Ok(tree) => tree,
        Err(diagnostic) => {
            let mut message = String::from_str("Cannot parse tree2. ");
            message.append(diagnostic.as_str());
            return Err(message);
        },
    };
    let raw = diff_trees(&tree1, &tree2);
    let root = lift_node(tree_root(&tree1));
    let mut edits: Vec<Edit> = Vec::new();
    let mut i: usize = 0;
    while i < raw.len()
        invariant
            i <= raw.len(),
            edits@.len() == i,
            forall|k: int| 0 <= k < i ==> (#[trigger] edits@[k])@ == raw_edit_view(raw@[k]),
        decreases raw.len() - i,
    {
        edits.push(lift_edit(&raw[i]));
        i = i + 1;
    }
    let ghost script = edit_views(edits@);
    assert(script_between(script, tree_view(tree1), tree_view(tree2))) by {
        assert forall|k: int| 0 <= k < script.len() implies edit_between(
            #[trigger] script[k],
            tree_view(tree1),
            tree_view(tree2),
        ) by {
            assert(script[k] == raw_edit_view(raw@[k]));
        }
        assert forall|k: int| 0 <= k < script.len() implies (#[trigger] script[k] is ReplaceRoot
            <==> raw@[k] is ReplaceRoot) by {
            assert(script[k] == raw_edit_view(raw@[k]));
        }
    }
    let tree = diff_tree_from_edits(&root, edits);
    assert(script_between(script, root@, tree_view(tree2)) && tree@ == diff_tree_of(
        root@,
        script,
    ));
    Ok(tree)
}

} // verus!

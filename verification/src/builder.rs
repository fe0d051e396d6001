//! From an edit script to a diff tree.

use crate::diff_tree::{
    DiffNode, DiffNodeKind, DiffNodeView, DiffTree, DiffTreeKind, DiffTreeView,
};
use crate::range::Range;
use crate::source::{
    edit_views, element_mark, has_node_at, names_node, within, Edit, EditView, NodeName,
    NodeNameView, NodeView, SourceNode,
};
use vstd::hash_map::StringHashMap;
use vstd::prelude::*;
use vstd::string::StringExecFns;

verus! {

/// The identity of the first-document node that an edit is filed under: the
/// new parent for an insertion, the node itself for a deletion or an update.
/// A replacement of the root is filed under none.
pub open spec fn edit_target(edit: EditView) -> Option<Seq<char>> {
    match edit {
        EditView::Insert { to_node, .. } => Some(to_node),
        EditView::Delete { node } => Some(node),
        EditView::Update { node, .. } => Some(node),
        EditView::ReplaceRoot => None,
    }
}

/// The test whether an edit is filed under `id`.
pub open spec fn filed_under(id: Seq<char>) -> spec_fn(EditView) -> bool {
    |e: EditView| edit_target(e) == Some(id)
}

/// The edits of a script that are filed under `id`, in the script's order.
pub open spec fn edits_for(edits: Seq<EditView>, id: Seq<char>) -> Seq<EditView> {
    edits.filter(filed_under(id))
}

/// A script grouped by target: each identity that some edit is filed under,
/// with the edits filed under it.
pub open spec fn grouped(edits: Seq<EditView>) -> Map<Seq<char>, Seq<EditView>> {
    Map::new(
        |id: Seq<char>| edits_for(edits, id).len() > 0,
        |id: Seq<char>| edits_for(edits, id),
    )
}

/// Whether every edit of every group is filed under its own target. In such
/// groups no edit replaces the root.
pub open spec fn well_filed(groups: Map<Seq<char>, Seq<EditView>>) -> bool {
    forall|id: Seq<char>, i: int|
        groups.contains_key(id) && 0 <= i < groups[id].len() ==> edit_target(
            #[trigger] groups[id][i],
        ) == Some(id)
}

/// Whether a group holds a deletion.
pub open spec fn has_delete(group: Seq<EditView>) -> bool {
    exists|i: int| 0 <= i < group.len() && #[trigger] group[i] is Delete
}

/// The range that the first update of a group brings from the second text.
pub open spec fn first_update(group: Seq<EditView>) -> Option<Range>
    decreases group.len(),
{
    if group.len() == 0 {
        None
    } else {
        match group[0] {
            EditView::Update { new_range, .. } => Some(new_range),
            _ => first_update(group.drop_first()),
        }
    }
}

/// The nodes that the insertions of a group bring, in the group's order.
pub open spec fn inserted_nodes(group: Seq<EditView>) -> Seq<NodeView>
    decreases group.len(),
{
    if group.len() == 0 {
        Seq::empty()
    } else {
        let before = inserted_nodes(group.drop_last());
        match group.last() {
            EditView::Insert { child_node, .. } => before.push(child_node),
            _ => before,
        }
    }
}

/// The largest end offset among the given nodes, 0 where there is none.
pub open spec fn max_end(nodes: Seq<NodeView>) -> usize
    decreases nodes.len(),
{
    if nodes.len() == 0 {
        0
    } else {
        let before = max_end(nodes.drop_last());
        if nodes.last().range.end > before {
            nodes.last().range.end
        } else {
            before
        }
    }
}

/// Where the `i`-th node inserted under `parent` is to be spliced into the
/// first text: behind the last child that the parent already has, or, from the
/// first inserted attribute on, at the parent's own start, where its opening
/// tag is found.
pub open spec fn insert_point(parent: NodeView, inserted: Seq<NodeView>, i: int) -> usize {
    if exists|j: int| 0 <= j <= i && j < inserted.len() && (#[trigger] inserted[j]).is_attribute {
        parent.range.start
    } else {
        max_end(parent.children)
    }
}

/// The label that a node is shown under.
pub open spec fn label_of(name: NodeNameView) -> Seq<char> {
    match name {
        NodeNameView::Tag { name, .. } => seq!['<'] + name + seq!['>'],
        NodeNameView::Attribute { name, .. } => seq!['['] + name + seq![']'],
        NodeNameView::Text => seq!['T', 'E', 'X', 'T'],
    }
}

/// The diff node for `node` and all below it.
///
/// `groups` is the edit script grouped by target, `kind` what the node
/// inherits from its parent, `insert_pos` the splice offset where the node is
/// the top of an inserted subtree.
///
/// A node that comes from the first document (no added kind) and is the target
/// of edits is shaped by them: a deletion makes it a `DeletedNode` over its own
/// range, its subtree marked `DeletedSubNode`; failing that, an update makes it
/// an `UpdatedNode` leaf over its own range and the new one; failing both, it
/// keeps the inherited kind without ranges, and each inserted node follows its
/// own children as an `AddedNode`. Any other node takes the ranges that its
/// inherited kind calls for, and its children the kind that follows from it.
pub open spec fn diff_node_of(
    node: NodeView,
    groups: Map<Seq<char>, Seq<EditView>>,
    kind: DiffNodeKind,
    insert_pos: Option<usize>,
) -> DiffNodeView
    decreases
        (if kind.is_added() { 0nat } else { 1nat }),
        node,
{
    if groups.contains_key(node.id) && !kind.is_added() {
        let group = groups[node.id];
        if has_delete(group) {
            DiffNodeView {
                name: label_of(node.name),
                range1: Some(node.range),
                range2: None,
                kind: DiffNodeKind::DeletedNode,
                insert_pos: None,
                children: Seq::new(
                    node.children.len(),
                    |i: int|
                        if 0 <= i < node.children.len() {
                            diff_node_of(
                                node.children[i],
                                groups,
                                DiffNodeKind::DeletedSubNode,
                                None,
                            )
                        } else {
                            arbitrary()
                        },
                ),
                is_attribute: node.is_attribute,
            }
        } else if first_update(group) is Some {
            DiffNodeView {
                name: label_of(node.name),
                range1: Some(node.range),
                range2: first_update(group),
                kind: DiffNodeKind::UpdatedNode,
                insert_pos: None,
                children: Seq::empty(),
                is_attribute: node.is_attribute,
            }
        } else {
            let inserted = inserted_nodes(group);
            DiffNodeView {
                name: label_of(node.name),
                range1: None,
                range2: None,
                kind: kind,
                insert_pos: None,
                children: Seq::new(
                    node.children.len() + inserted.len(),
                    |i: int|
                        if 0 <= i < node.children.len() {
                            diff_node_of(node.children[i], groups, kind, None)
                        } else if i < node.children.len() + inserted.len() {
                            let j = i - node.children.len();
                            diff_node_of(
                                inserted[j],
                                groups,
                                DiffNodeKind::AddedNode,
                                Some(insert_point(node, inserted, j)),
                            )
                        } else {
                            arbitrary()
                        },
                ),
                is_attribute: node.is_attribute,
            }
        }
    } else {
        DiffNodeView {
            name: label_of(node.name),
            range1: if kind == DiffNodeKind::DeletedSubNode {
                Some(node.range)
            } else {
                None
            },
            range2: if kind.is_added() {
                Some(node.range)
            } else {
                None
            },
            kind: kind,
            insert_pos: insert_pos,
            children: Seq::new(
                node.children.len(),
                |i: int|
                    if 0 <= i < node.children.len() {
                        diff_node_of(node.children[i], groups, kind.child_kind(), None)
                    } else {
                        arbitrary()
                    },
            ),
            is_attribute: node.is_attribute,
        }
    }
}

/// Whether an edit lies between two documents with the given roots: it names
/// a node of the first, and what it brings is a node of the second, or the
/// range of one.
pub open spec fn edit_between(edit: EditView, first: NodeView, second: NodeView) -> bool {
    match edit {
        EditView::Insert { child_node, to_node } => names_node(first, to_node) && within(
            second,
            child_node,
        ),
        EditView::Delete { node } => names_node(first, node),
        EditView::Update { node, new_range } => names_node(first, node) && has_node_at(
            second,
            new_range,
        ),
        EditView::ReplaceRoot => true,
    }
}

/// Whether a script lies between two documents with the given roots. Roots
/// that differ in their mark have the script that replaces the root and does
/// nothing else; roots that share it have a script that replaces no root, in
/// which every edit lies between the two documents.
pub open spec fn script_between(edits: Seq<EditView>, first: NodeView, second: NodeView) -> bool {
    &&& edits.len() <= usize::MAX
    &&& if element_mark(first.name) != element_mark(second.name) {
        edits.len() == 1 && edits[0] is ReplaceRoot
    } else {
        forall|i: int| 0 <= i < edits.len() ==> !(#[trigger] edits[i] is ReplaceRoot)
    }
    &&& forall|i: int| 0 <= i < edits.len() ==> edit_between(#[trigger] edits[i], first, second)
}

/// What a differ owes of a replacement of the root: it stands nowhere but at
/// the head of a script.
pub open spec fn replace_root_leads(edits: Seq<EditView>) -> bool {
    forall|i: int|
        0 < i < edits.len() && #[trigger] edits[i] is ReplaceRoot ==> edits[0] is ReplaceRoot
}

/// The diff tree for a first document with root `root` and an edit script:
/// `Same` for the empty script, `TotalDiff` for one that starts by replacing
/// the root, else the diff node of the root under the grouped script.
pub open spec fn diff_tree_of(root: NodeView, edits: Seq<EditView>) -> DiffTreeView {
    if edits.len() == 0 {
        DiffTreeView { kind: DiffTreeKind::Same, root: None, diff_count: 0 }
    } else if edits[0] is ReplaceRoot {
        DiffTreeView { kind: DiffTreeKind::TotalDiff, root: None, diff_count: 1 }
    } else {
        DiffTreeView {
            kind: DiffTreeKind::PartialDiff,
            root: Some(diff_node_of(root, grouped(edits), DiffNodeKind::NoDiff, None)),
            diff_count: edits.len() as usize,
        }
    }
}

/// Every diff node that a first-document node gives rise to carries the
/// ranges that its kind calls for, and so does every node below it: a
/// `DeletedNode` stands in the first text only, an `AddedNode` in the second
/// only, an `UpdatedNode` in both and has no children.
pub proof fn lemma_diff_node_well_shaped(
    node: NodeView,
    groups: Map<Seq<char>, Seq<EditView>>,
    kind: DiffNodeKind,
    insert_pos: Option<usize>,
)
    requires
        kind.is_inheritable(),
    ensures
        diff_node_of(node, groups, kind, insert_pos).well_shaped(),
    decreases
        (if kind.is_added() { 0nat } else { 1nat }),
        node,
{
    let built = diff_node_of(node, groups, kind, insert_pos);
    if groups.contains_key(node.id) && !kind.is_added() {
        let group = groups[node.id];
        if has_delete(group) {
            assert forall|i: int| 0 <= i < built.children.len() implies (
            #[trigger] built.children[i]).well_shaped() by {
                lemma_diff_node_well_shaped(
                    node.children[i],
                    groups,
                    DiffNodeKind::DeletedSubNode,
                    None,
                );
            }
        } else if first_update(group) is Some {
        } else {
            let inserted = inserted_nodes(group);
            assert forall|i: int| 0 <= i < built.children.len() implies (
            #[trigger] built.children[i]).well_shaped() by {
                if i < node.children.len() {
                    lemma_diff_node_well_shaped(node.children[i], groups, kind, None);
                } else {
                    let j = i - node.children.len();
                    lemma_diff_node_well_shaped(
                        inserted[j],
                        groups,
                        DiffNodeKind::AddedNode,
                        Some(insert_point(node, inserted, j)),
                    );
                }
            }
        }
    } else {
        assert forall|i: int| 0 <= i < built.children.len() implies (
        #[trigger] built.children[i]).well_shaped() by {
            lemma_diff_node_well_shaped(node.children[i], groups, kind.child_kind(), None);
        }
    }
}

/// A diff tree has a root exactly when it is a partial diff, and the nodes
/// under that root carry the ranges that their kinds call for. It counts no
/// edit where the documents are the same, one for a total diff, and at least
/// one for a partial diff.
pub proof fn lemma_diff_tree_well_formed(root: NodeView, edits: Seq<EditView>)
    requires
        edits.len() <= usize::MAX,
    ensures
        diff_tree_of(root, edits).well_formed(),
{
    lemma_diff_node_well_shaped(root, grouped(edits), DiffNodeKind::NoDiff, None);
}

/// A script that starts by replacing the root gives a total diff of one edit
/// and no root, whatever follows in it.
pub proof fn lemma_replace_root_is_total(root: NodeView, edits: Seq<EditView>)
    requires
        edits.len() > 0,
        edits[0] is ReplaceRoot,
    ensures
        diff_tree_of(root, edits) == (DiffTreeView {
            kind: DiffTreeKind::TotalDiff,
            root: None,
            diff_count: 1,
        }),
{
}

/// An edit script grouped by the identity of the first-document node that
/// each edit is filed under. Every edit of a group has the identity of the
/// group for its target, so that no group holds an edit that replaces the
/// root.
pub struct EditGroups {
    index: StringHashMap<usize>,
    groups: Vec<Vec<Edit>>,
}

impl View for EditGroups {
    type V = Map<Seq<char>, Seq<EditView>>;

    closed spec fn view(&self) -> Map<Seq<char>, Seq<EditView>> {
        Map::new(
            |id: Seq<char>| self.index@.contains_key(id),
            |id: Seq<char>| edit_views(self.groups@[self.index@[id] as int]@),
        )
    }
}

impl EditGroups {
    #[verifier::type_invariant]
    closed spec fn indexed(self) -> bool {
        &&& forall|id: Seq<char>| #[trigger]
            self.index@.contains_key(id) ==> self.index@[id] < self.groups@.len()
        &&& forall|id: Seq<char>, other: Seq<char>|
            #![trigger self.index@.contains_key(id), self.index@.contains_key(other)]
            self.index@.contains_key(id) && self.index@.contains_key(other) && self.index@[id]
                == self.index@[other] ==> id == other
        &&& forall|id: Seq<char>, i: int|
            #![trigger self.index@.contains_key(id), self.groups@[self.index@[id] as int]@[i]]
            self.index@.contains_key(id) && 0 <= i < self.groups@[self.index@[id] as int]@.len()
                ==> edit_target(self.groups@[self.index@[id] as int]@[i]@) == Some(id)
    }

    /// The grouping of the empty script.
    pub fn new() -> (r: Self)
        ensures
            r@ == Map::<Seq<char>, Seq<EditView>>::empty(),
            well_filed(r@),
    {
        EditGroups { index: StringHashMap::new(), groups: Vec::new() }
    }

    /// The edits filed under `id`, if there are any.
    pub fn get(&self, id: &String) -> (r: Option<&Vec<Edit>>)
        ensures
            r is Some <==> self@.contains_key(id@),
            r matches Some(group) ==> edit_views(group@) == self@[id@],
            well_filed(self@),
    {
        proof {
            use_type_invariant(self);
            assert forall|id: Seq<char>, i: int|
                self@.contains_key(id) && 0 <= i < self@[id].len() implies edit_target(
                #[trigger] self@[id][i]) == Some(id) by {
                assert(self@[id][i] == self.groups@[self.index@[id] as int]@[i]@);
            }
        }
        match self.index.get(id.as_str()) {
            Some(at) => Some(&self.groups[*at]),
            None => None,
        }
    }

    /// Files `edit` under its target, behind the edits that are filed there
    /// already. An edit that replaces the root has no target and no place in a
    /// group.
    pub fn add(self, edit: Edit) -> (r: Self)
        requires
            !(edit@ is ReplaceRoot),
        ensures
            r@ == self@.insert(
                edit_target(edit@)->0,
                (if self@.contains_key(edit_target(edit@)->0) {
                    self@[edit_target(edit@)->0]
                } else {
                    Seq::empty()
                }).push(edit@),
            ),
            well_filed(r@),
    {
        proof {
            use_type_invariant(&self);
        }
        let ghost edit_value = edit@;
        let key = target_of(&edit);
        let EditGroups { mut index, mut groups } = self;
        let found = match index.get(key.as_str()) {
            Some(at) => Some(*at),
            None => None,
        };
        match found {
            Some(at) => {
                let ghost members = groups@[at as int]@;
                let ghost before = groups@;
                groups[at].push(edit);
                assert(edit_views(groups@[at as int]@) =~= edit_views(members).push(edit_value));
                assert forall|id: Seq<char>, i: int|
                    index@.contains_key(id) && 0 <= i < groups@[index@[id] as int]@.len()
                    implies edit_target(#[trigger] groups@[index@[id] as int]@[i]@) == Some(
                    id,
                ) by {
                    if index@[id] == at {
                        if i < members.len() {
                            assert(groups@[at as int]@[i] == before[index@[id] as int]@[i]);
                        }
                    } else {
                        assert(groups@[index@[id] as int] == before[index@[id] as int]);
                    }
                }
                EditGroups { index, groups }
            },
            None => {
                let at = groups.len();
                let ghost before = groups@;
                let mut members: Vec<Edit> = Vec::new();
                members.push(edit);
                groups.push(members);
                index.insert(key, at);
                assert(edit_views(groups@[at as int]@) =~= Seq::<EditView>::empty().push(
                    edit_value,
                ));
                assert forall|id: Seq<char>, i: int|
                    index@.contains_key(id) && 0 <= i < groups@[index@[id] as int]@.len()
                    implies edit_target(#[trigger] groups@[index@[id] as int]@[i]@) == Some(
                    id,
                ) by {
                    if index@[id] != at {
                        assert(groups@[index@[id] as int] == before[index@[id] as int]);
                    }
                }
                EditGroups { index, groups }
            },
        }
    }
}

/// The identity that an edit is filed under.
fn target_of(edit: &Edit) -> (r: String)
    requires
        !(edit@ is ReplaceRoot),
    ensures
        edit_target(edit@) == Some(r@),
{
    match edit {
        Edit::Insert { child_node, to_node } => to_node.clone(),
        Edit::Delete { node } => node.clone(),
        Edit::Update { node, new_range } => node.clone(),
        Edit::ReplaceRoot => String::new(),
    }
}

/// Grouping a script that was extended by one edit: the edit goes behind the
/// others filed under its target, and no other group changes.
proof fn lemma_grouped_push(edits: Seq<EditView>, edit: EditView)
    ensures
        grouped(edits.push(edit)) == (match edit_target(edit) {
            Some(key) => grouped(edits).insert(
                key,
                (if grouped(edits).contains_key(key) {
                    grouped(edits)[key]
                } else {
                    Seq::empty()
                }).push(edit),
            ),
            None => grouped(edits),
        }),
{
    assert forall|id: Seq<char>| #[trigger]
        edits_for(edits.push(edit), id) == (if edit_target(edit) == Some(id) {
            edits_for(edits, id).push(edit)
        } else {
            edits_for(edits, id)
        }) by {
        edits.lemma_filter_push(edit, filed_under(id));
    }
    if let Some(key) = edit_target(edit) {
        let prior = if grouped(edits).contains_key(key) {
            grouped(edits)[key]
        } else {
            Seq::empty()
        };
        assert(prior =~= edits_for(edits, key));
    }
}

/// Groups an edit script by the identity of the first-document node that each
/// edit is filed under. Within a group the edits keep the script's order. No
/// edit of the script replaces the root.
pub fn group_edits(edits: Vec<Edit>) -> (r: EditGroups)
    requires
        forall|i: int| 0 <= i < edits@.len() ==> !(#[trigger] edits@[i]@ is ReplaceRoot),
    ensures
        r@ == grouped(edit_views(edits@)),
{
    let ghost all = edit_views(edits@);
    let mut groups = EditGroups::new();
    assert(groups@ =~= grouped(all.take(0))) by {
        reveal(Seq::filter);
    }
    for edit in it: edits
        invariant
            it.seq() == edits@,
            all == edit_views(edits@),
            forall|i: int| 0 <= i < edits@.len() ==> !(#[trigger] edits@[i]@ is ReplaceRoot),
            groups@ == grouped(all.take(it.index() as int)),
    {
        proof {
            let at = it.index() as int;
            assert(edit == edits@[at]);
            assert(all.take(at + 1) =~= all.take(at).push(edit@));
            lemma_grouped_push(all.take(at), edit@);
        }
        groups = groups.add(edit);
    }
    assert(all.take(all.len() as int) =~= all);
    groups
}

/// Whether the group holds a deletion.
fn group_has_delete(group: &Vec<Edit>) -> (r: bool)
    ensures
        r == has_delete(edit_views(group@)),
{
    let mut i: usize = 0;
    while i < group.len()
        invariant
            i <= group.len(),
            forall|k: int| 0 <= k < i ==> !(#[trigger] edit_views(group@)[k] is Delete),
        decreases group.len() - i,
    {
        match &group[i] {
            Edit::Delete { node } => {
                assert(edit_views(group@)[i as int] is Delete);
                return true;
            },
            _ => {},
        }
        i = i + 1;
    }
    false
}

/// The range that the first update of the group brings, if the group holds one.
fn group_first_update(group: &Vec<Edit>) -> (r: Option<Range>)
    ensures
        r == first_update(edit_views(group@)),
{
    let ghost all = edit_views(group@);
    let mut i: usize = 0;
    assert(all.skip(0) =~= all);
    while i < group.len()
        invariant
            i <= group.len(),
            all == edit_views(group@),
            first_update(all) == first_update(all.skip(i as int)),
        decreases group.len() - i,
    {
        assert(all.skip(i as int).drop_first() =~= all.skip(i as int + 1));
        match &group[i] {
            Edit::Update { node, new_range } => {
                return Some(*new_range);
            },
            _ => {},
        }
        i = i + 1;
    }
    None
}

/// The label that a node is shown under: `<tag>` for an element, `[name]` for
/// an attribute, `TEXT` for text.
pub fn node_label(name: &NodeName) -> (r: String)
    ensures
        r@ == label_of(name@),
{
    match name {
        NodeName::Tag { name: tag, .. } => {
            proof {
                reveal_strlit("<");
                reveal_strlit(">");
            }
            let mut label = String::from_str("<");
            label.append(tag.as_str());
            label.append(">");
            label
        },
        NodeName::Attribute { name: attribute, .. } => {
            proof {
                reveal_strlit("[");
                reveal_strlit("]");
            }
            let mut label = String::from_str("[");
            label.append(attribute.as_str());
            label.append("]");
            label
        },
        NodeName::Text => {
            proof {
                reveal_strlit("TEXT");
            }
            String::from_str("TEXT")
        },
    }
}

/// The splice offset of an inserted node depends only on the inserted nodes
/// up to it.
proof fn lemma_insert_point_prefix(
    parent: NodeView,
    shorter: Seq<NodeView>,
    longer: Seq<NodeView>,
    i: int,
)
    requires
        i < shorter.len() <= longer.len(),
        forall|k: int| 0 <= k < shorter.len() ==> shorter[k] == longer[k],
    ensures
        insert_point(parent, shorter, i) == insert_point(parent, longer, i),
{
}

/// The largest end offset among the children of `node`, 0 where it has none.
fn last_child_end(node: &SourceNode) -> (r: usize)
    ensures
        r == max_end(node@.children),
{
    let ghost all = node@.children;
    let mut end: usize = 0;
    let mut i: usize = 0;
    while i < node.children.len()
        invariant
            i <= node.children.len(),
            all == node@.children,
            all.len() == node.children@.len(),
            end == max_end(all.take(i as int)),
        decreases node.children.len() - i,
    {
        assert(all.take(i as int + 1).drop_last() =~= all.take(i as int));
        assert(all[i as int] == node.children@[i as int]@);
        if node.children[i].range.end > end {
            end = node.children[i].range.end;
        }
        i = i + 1;
    }
    assert(all.take(all.len() as int) =~= all);
    end
}

/// The diff nodes of the children of `node`, each built under `kind`.
fn build_children(node: &SourceNode, changed_nodes: &EditGroups, kind: DiffNodeKind) -> (r: Vec<
    DiffNode,
>)
    requires
        kind.is_inheritable(),
    ensures
        r@.len() == node@.children.len(),
        forall|k: int|
            0 <= k < r@.len() ==> (#[trigger] r@[k])@ == diff_node_of(
                node@.children[k],
                changed_nodes@,
                kind,
                None,
            ),
    decreases (if kind.is_added() { 0nat } else { 1nat }), node, 0nat,
{
    let mut subnodes: Vec<DiffNode> = Vec::new();
    let mut i: usize = 0;
    while i < node.children.len()
        invariant
            kind.is_inheritable(),
            i <= node.children.len(),
            subnodes@.len() == i,
            node@.children.len() == node.children@.len(),
            forall|k: int|
                0 <= k < i ==> (#[trigger] subnodes@[k])@ == diff_node_of(
                    node@.children[k],
                    changed_nodes@,
                    kind,
                    None,
                ),
        decreases node.children.len() - i,
    {
        subnodes.push(build_diff_node(&node.children[i], changed_nodes, kind, None));
        i = i + 1;
    }
    subnodes
}

/// Builds the diff node for `node` and all below it.
///
/// `changed_nodes` is the edit script grouped by target, `kind` what the node
/// inherits from its parent, and `insert_pos` the splice offset where the node
/// is the top of an inserted subtree. `DeletedNode` and `UpdatedNode` are
/// never inherited: they mark the node at which they are detected. No group
/// holds an edit that replaces the root: [`EditGroups`] files none.
pub fn build_diff_node(
    node: &SourceNode,
    changed_nodes: &EditGroups,
    kind: DiffNodeKind,
    insert_pos: Option<usize>,
) -> (r: DiffNode)
    requires
        kind.is_inheritable(),
    ensures
        r@ == diff_node_of(node@, changed_nodes@, kind, insert_pos),
        r@.well_shaped(),
    decreases (if kind.is_added() { 0nat } else { 1nat }), node, 1nat,
{
    proof {
        lemma_diff_node_well_shaped(node@, changed_nodes@, kind, insert_pos);
    }
    let name = node_label(&node.name);
    let added = match kind {
        DiffNodeKind::AddedNode => true,
        DiffNodeKind::AddedSubNode => true,
        _ => false,
    };
    if !added {
        if let Some(edits) = changed_nodes.get(&node.id) {
            let ghost group = edit_views(edits@);
            if group_has_delete(edits) {
                let subnodes = build_children(node, changed_nodes, DiffNodeKind::DeletedSubNode);
                let r = DiffNode {
                    name,
                    range1: Some(node.range),
                    range2: None,
                    kind: DiffNodeKind::DeletedNode,
                    insert_pos: None,
                    children: subnodes,
                    is_attribute: node.is_attribute,
                };
                assert(r@.children =~= diff_node_of(
                    node@,
                    changed_nodes@,
                    kind,
                    insert_pos,
                ).children);
                return r;
            }
            match group_first_update(edits) {
                Some(new_range) => {
                    let r = DiffNode {
                        name,
                        range1: Some(node.range),
                        range2: Some(new_range),
                        kind: DiffNodeKind::UpdatedNode,
                        insert_pos: None,
                        children: Vec::new(),
                        is_attribute: node.is_attribute,
                    };
                    assert(r@.children =~= Seq::<DiffNodeView>::empty());
                    return r;
                },
                None => {},
            }
            let mut subnodes = build_children(node, changed_nodes, kind);
            let mut splice_at = last_child_end(node);
            let ghost own_count = node@.children.len();
            let mut i: usize = 0;
            while i < edits.len()
                invariant
                    !kind.is_added(),
                    kind.is_inheritable(),
                    i <= edits.len(),
                    group == edit_views(edits@),
                    own_count == node@.children.len(),
                    subnodes@.len() == own_count + inserted_nodes(group.take(i as int)).len(),
                    forall|k: int|
                        0 <= k < own_count ==> (#[trigger] subnodes@[k])@ == diff_node_of(
                            node@.children[k],
                            changed_nodes@,
                            kind,
                            None,
                        ),
                    forall|j: int|
                        0 <= j < inserted_nodes(group.take(i as int)).len() ==> (
                        #[trigger] subnodes@[own_count + j])@ == diff_node_of(
                            inserted_nodes(group.take(i as int))[j],
                            changed_nodes@,
                            DiffNodeKind::AddedNode,
                            Some(insert_point(node@, inserted_nodes(group.take(i as int)), j)),
                        ),
                    splice_at == insert_point(
                        node@,
                        inserted_nodes(group.take(i as int)),
                        inserted_nodes(group.take(i as int)).len() - 1,
                    ),
                decreases edits.len() - i,
            {
                let ghost before = inserted_nodes(group.take(i as int));
                let ghost after = inserted_nodes(group.take(i as int + 1));
                assert(group.take(i as int + 1).drop_last() =~= group.take(i as int));
                match &edits[i] {
                    Edit::Insert { child_node, to_node } => {
                        if child_node.is_attribute {
                            splice_at = node.range.start;
                        }
                        proof {
                            let last = before.len() as int;
                            assert(after[last] == child_node@);
                            if !child_node.is_attribute && last > 0 {
                                lemma_insert_point_prefix(node@, before, after, last - 1);
                            }
                            assert forall|j: int| 0 <= j < before.len() implies insert_point(
                                node@,
                                before,
                                j,
                            ) == insert_point(node@, after, j) by {
                                lemma_insert_point_prefix(node@, before, after, j);
                            }
                        }
                        subnodes.push(
                            build_diff_node(
                                child_node,
                                changed_nodes,
                                DiffNodeKind::AddedNode,
                                Some(splice_at),
                            ),
                        );
                    },
                    _ => {},
                }
                i = i + 1;
            }
            assert(group.take(group.len() as int) =~= group);
            let r = DiffNode {
                name,
                range1: None,
                range2: None,
                kind,
                insert_pos: None,
                children: subnodes,
                is_attribute: node.is_attribute,
            };
            proof {
                let built = diff_node_of(node@, changed_nodes@, kind, insert_pos);
                let inserted = inserted_nodes(group);
                assert forall|k: int| 0 <= k < r@.children.len() implies r@.children[k]
                    == built.children[k] by {
                    if k >= own_count {
                        let j = k - own_count;
                        assert(subnodes@[own_count + j]@ == diff_node_of(
                            inserted[j],
                            changed_nodes@,
                            DiffNodeKind::AddedNode,
                            Some(insert_point(node@, inserted, j)),
                        ));
                    }
                }
                assert(r@.children =~= built.children);
            }
            return r;
        }
    }
    let (range1, range2, subnode_kind) = match kind {
        DiffNodeKind::DeletedSubNode => (Some(node.range), None, kind),
        DiffNodeKind::AddedSubNode => (None, Some(node.range), kind),
        DiffNodeKind::AddedNode => (None, Some(node.range), DiffNodeKind::AddedSubNode),
        _ => (None, None, kind),
    };
    let children = build_children(node, changed_nodes, subnode_kind);
    let r = DiffNode {
        name,
        range1,
        range2,
        kind,
        children,
        insert_pos,
        is_attribute: node.is_attribute,
    };
    assert(r@.children =~= diff_node_of(node@, changed_nodes@, kind, insert_pos).children);
    r
}

/// Builds the diff tree of a first document with root `root` from the edit
/// script that leads to the second.
///
/// A script that starts by replacing the root is taken as that one edit,
/// whatever follows. In any other script no edit replaces the root.
pub fn diff_tree_from_edits(root: &SourceNode, edits: Vec<Edit>) -> (r: DiffTree)
    requires
        replace_root_leads(edit_views(edits@)),
    ensures
        r@ == diff_tree_of(root@, edit_views(edits@)),
        r@.well_formed(),
{
    let diff_count = edits.len();
    proof {
        lemma_diff_tree_well_formed(root@, edit_views(edits@));
    }
    if diff_count == 0 {
        return DiffTree { kind: DiffTreeKind::Same, root: None, diff_count: 0 };
    }
    let total = match &edits[0] {
        Edit::ReplaceRoot => true,
        _ => false,
    };
    if total {
        return DiffTree { kind: DiffTreeKind::TotalDiff, root: None, diff_count: 1 };
    }
    assert forall|i: int| 0 <= i < edits@.len() implies !(#[trigger] edits@[i]@ is ReplaceRoot) by {
        assert(edit_views(edits@)[i] == edits@[i]@);
    }
    let changed_nodes = group_edits(edits);
    DiffTree {
        kind: DiffTreeKind::PartialDiff,
        root: Some(build_diff_node(root, &changed_nodes, DiffNodeKind::NoDiff, None)),
        diff_count,
    }
}

} // verus!

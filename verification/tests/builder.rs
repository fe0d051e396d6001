use libxdiffer::{
    build_diff_node, diff_tree_from_edits, group_edits, node_label, DiffNode, DiffNodeKind,
    DiffTreeKind, Edit, EditGroups, NodeName, Range, SourceNode,
};

fn element(id: &str, tag: &str, start: usize, end: usize, children: Vec<SourceNode>) -> SourceNode {
    SourceNode {
        id: id.to_string(),
        name: NodeName::Tag { namespace: None, name: tag.to_string() },
        range: Range { start, end },
        is_attribute: false,
        children,
    }
}

fn attribute(id: &str, name: &str, start: usize, end: usize) -> SourceNode {
    SourceNode {
        id: id.to_string(),
        name: NodeName::Attribute { namespace: None, name: name.to_string() },
        range: Range { start, end },
        is_attribute: true,
        children: Vec::new(),
    }
}

fn text(id: &str, start: usize, end: usize) -> SourceNode {
    SourceNode {
        id: id.to_string(),
        name: NodeName::Text,
        range: Range { start, end },
        is_attribute: false,
        children: Vec::new(),
    }
}

fn insert(child_node: SourceNode, to_node: &str) -> Edit {
    Edit::Insert { child_node, to_node: to_node.to_string() }
}

fn delete(node: &str) -> Edit {
    Edit::Delete { node: node.to_string() }
}

fn update(node: &str, start: usize, end: usize) -> Edit {
    Edit::Update { node: node.to_string(), new_range: Range { start, end } }
}

/// `<a x="1"><b>text</b><c/></a>`
fn document() -> SourceNode {
    element(
        "1",
        "a",
        0,
        28,
        vec![
            element("2", "b", 9, 20, vec![text("3", 12, 16)]),
            element("4", "c", 20, 24, Vec::new()),
            attribute("1[x]", "x", 3, 8),
        ],
    )
}

fn leaf(
    name: &str,
    range1: Option<Range>,
    range2: Option<Range>,
    kind: DiffNodeKind,
    insert_pos: Option<usize>,
    is_attribute: bool,
) -> DiffNode {
    DiffNode {
        name: name.to_string(),
        range1,
        range2,
        kind,
        insert_pos,
        children: Vec::new(),
        is_attribute,
    }
}

fn span(start: usize, end: usize) -> Option<Range> {
    Some(Range { start, end })
}

/// Checks the ranges that each kind of change carries, here and below.
fn well_shaped(node: &DiffNode) -> bool {
    let here = match node.kind() {
        DiffNodeKind::DeletedNode => node.range1().is_some() && node.range2().is_none(),
        DiffNodeKind::UpdatedNode => {
            node.range1().is_some() && node.range2().is_some() && node.children().is_empty()
        }
        DiffNodeKind::AddedNode => node.range1().is_none() && node.range2().is_some(),
        _ => true,
    };
    here && node.children().iter().all(well_shaped)
}

#[test]
fn labels() {
    let svg = NodeName::Tag { namespace: None, name: "svg".to_string() };
    assert_eq!(node_label(&svg), "<svg>");
    let href = NodeName::Attribute {
        namespace: Some("http://www.w3.org/1999/xlink".to_string()),
        name: "href".to_string(),
    };
    assert_eq!(node_label(&href), "[href]");
    assert_eq!(node_label(&NodeName::Text), "TEXT");
    assert_eq!(node_label(&NodeName::Tag { namespace: None, name: String::new() }), "<>");
    let namespaced = NodeName::Tag { namespace: Some("urn:x".to_string()), name: "a".to_string() };
    assert_eq!(node_label(&namespaced), "<a>");
}

#[test]
fn empty_script_gives_same() {
    let tree = diff_tree_from_edits(&document(), Vec::new());
    assert_eq!(tree.kind(), DiffTreeKind::Same);
    assert_eq!(tree.root(), None);
    assert_eq!(tree.diff_count(), 0);
}

#[test]
fn replace_root_gives_total_diff() {
    let tree = diff_tree_from_edits(&document(), vec![Edit::ReplaceRoot]);
    assert_eq!(tree.kind(), DiffTreeKind::TotalDiff);
    assert_eq!(tree.root(), None);
    assert_eq!(tree.diff_count(), 1);
}

#[test]
fn partial_diff_counts_every_edit() {
    for count in 1..5 {
        let edits = (0..count).map(|_| update("3", 1, 2)).collect();
        let tree = diff_tree_from_edits(&document(), edits);
        assert_eq!(tree.kind(), DiffTreeKind::PartialDiff);
        assert!(tree.root().is_some());
        assert_eq!(tree.diff_count(), count);
    }
}

#[test]
fn replace_root_stands_for_all_that_follows() {
    let edits = vec![Edit::ReplaceRoot, delete("2"), update("3", 1, 2), Edit::ReplaceRoot];
    let tree = diff_tree_from_edits(&document(), edits);
    assert_eq!(tree.kind(), DiffTreeKind::TotalDiff);
    assert_eq!(tree.root(), None);
    assert_eq!(tree.diff_count(), 1);
}

#[test]
fn edits_for_no_node_leave_the_tree_plain() {
    let tree = diff_tree_from_edits(&document(), vec![delete("99"), update("98", 0, 1)]);
    assert_eq!(tree.kind(), DiffTreeKind::PartialDiff);
    assert_eq!(tree.diff_count(), 2);
    let root = tree.root().unwrap();
    assert_eq!(root.name(), "<a>");
    assert_eq!(root.kind(), DiffNodeKind::NoDiff);
    assert_eq!((root.range1(), root.range2(), root.insert_pos()), (None, None, None));
    assert!(!root.is_attribute());
    let children = root.children();
    assert_eq!(children.len(), 3);
    assert_eq!(children[0].name(), "<b>");
    assert_eq!(
        children[0].children(),
        vec![leaf("TEXT", None, None, DiffNodeKind::NoDiff, None, false)]
    );
    assert_eq!(children[1], leaf("<c>", None, None, DiffNodeKind::NoDiff, None, false));
    assert_eq!(children[2], leaf("[x]", None, None, DiffNodeKind::NoDiff, None, true));
}

#[test]
fn deleted_node_and_its_subtree() {
    let tree = diff_tree_from_edits(&document(), vec![delete("2")]);
    assert_eq!(tree.kind(), DiffTreeKind::PartialDiff);
    assert_eq!(tree.diff_count(), 1);
    let root = tree.root().unwrap();
    assert_eq!(root.kind(), DiffNodeKind::NoDiff);
    let deleted = &root.children()[0];
    assert_eq!(deleted.name(), "<b>");
    assert_eq!(deleted.kind(), DiffNodeKind::DeletedNode);
    assert_eq!(deleted.range1(), span(9, 20));
    assert_eq!(deleted.range2(), None);
    assert_eq!(deleted.insert_pos(), None);
    assert_eq!(
        deleted.children(),
        vec![leaf("TEXT", span(12, 16), None, DiffNodeKind::DeletedSubNode, None, false)]
    );
    assert_eq!(root.children()[1].kind(), DiffNodeKind::NoDiff);
    assert!(well_shaped(&root));
}

#[test]
fn updated_node_is_a_leaf() {
    let tree = diff_tree_from_edits(&document(), vec![update("1[x]", 3, 9), update("2", 40, 50)]);
    assert_eq!(tree.diff_count(), 2);
    let root = tree.root().unwrap();
    let children = root.children();
    assert_eq!(
        children[2],
        leaf("[x]", span(3, 8), span(3, 9), DiffNodeKind::UpdatedNode, None, true)
    );
    // An update ends the descent, whatever stands below the node.
    assert_eq!(
        children[0],
        leaf("<b>", span(9, 20), span(40, 50), DiffNodeKind::UpdatedNode, None, false)
    );
    assert!(well_shaped(&root));
}

#[test]
fn first_update_of_a_group_counts() {
    let tree = diff_tree_from_edits(&document(), vec![update("3", 1, 2), update("3", 5, 6)]);
    let root = tree.root().unwrap();
    let text = &root.children()[0].children()[0];
    assert_eq!(text.kind(), DiffNodeKind::UpdatedNode);
    assert_eq!(text.range2(), span(1, 2));
}

#[test]
fn deletion_goes_before_update_and_insertion() {
    let added = element("7", "n", 3, 7, Vec::new());
    for edits in [
        vec![update("2", 1, 2), insert(added.clone(), "2"), delete("2")],
        vec![delete("2"), update("2", 1, 2), insert(added.clone(), "2")],
    ] {
        let root = diff_tree_from_edits(&document(), edits).root().unwrap();
        let node = &root.children()[0];
        assert_eq!(node.kind(), DiffNodeKind::DeletedNode);
        assert_eq!(node.range2(), None);
        assert_eq!(node.children().len(), 1);
    }
}

#[test]
fn update_goes_before_insertion() {
    let added = element("7", "n", 3, 7, Vec::new());
    let edits = vec![insert(added, "2"), update("2", 1, 2)];
    let root = diff_tree_from_edits(&document(), edits).root().unwrap();
    assert_eq!(
        root.children()[0],
        leaf("<b>", span(9, 20), span(1, 2), DiffNodeKind::UpdatedNode, None, false)
    );
}

#[test]
fn inserted_nodes_follow_the_children() {
    let below = vec![text("6", 33, 37), attribute("5[k]", "k", 40, 44)];
    let new_element = element("5", "d", 30, 45, below);
    let edits = vec![insert(new_element, "1")];
    let tree = diff_tree_from_edits(&document(), edits);
    let root = tree.root().unwrap();
    assert_eq!(root.kind(), DiffNodeKind::NoDiff);
    assert_eq!((root.range1(), root.range2(), root.insert_pos()), (None, None, None));
    let children = root.children();
    assert_eq!(children.len(), 4);
    assert_eq!(children[0].kind(), DiffNodeKind::NoDiff);
    assert_eq!(children[2].kind(), DiffNodeKind::NoDiff);
    let added = &children[3];
    assert_eq!(added.name(), "<d>");
    assert_eq!(added.kind(), DiffNodeKind::AddedNode);
    assert_eq!(added.range1(), None);
    assert_eq!(added.range2(), span(30, 45));
    // Behind the child that ends last: `<c/>` ends at 24.
    assert_eq!(added.insert_pos(), Some(24));
    assert_eq!(
        added.children(),
        vec![
            leaf("TEXT", None, span(33, 37), DiffNodeKind::AddedSubNode, None, false),
            leaf("[k]", None, span(40, 44), DiffNodeKind::AddedSubNode, None, true),
        ]
    );
    assert!(well_shaped(&root));
}

#[test]
fn inserted_attribute_goes_to_the_start_of_its_element() {
    let edits = vec![insert(attribute("9[y]", "y", 3, 8), "2")];
    let root = diff_tree_from_edits(&document(), edits).root().unwrap();
    let parent = &root.children()[0];
    assert_eq!(parent.kind(), DiffNodeKind::NoDiff);
    assert_eq!(parent.children().len(), 2);
    assert_eq!(
        parent.children()[1],
        leaf("[y]", None, span(3, 8), DiffNodeKind::AddedNode, Some(9), true)
    );
}

#[test]
fn insert_position_stays_at_the_start_once_an_attribute_came() {
    let edits = vec![
        insert(element("7", "p", 50, 54, Vec::new()), "1"),
        insert(attribute("1[y]", "y", 3, 8), "1"),
        insert(element("8", "q", 54, 58, Vec::new()), "1"),
    ];
    let root = diff_tree_from_edits(&document(), edits).root().unwrap();
    let children = root.children();
    assert_eq!(children.len(), 6);
    assert_eq!(children[3].insert_pos(), Some(24));
    assert_eq!(children[4].insert_pos(), Some(0));
    assert_eq!(children[5].insert_pos(), Some(0));
    assert_eq!(children[5].name(), "<q>");
}

#[test]
fn insertion_under_a_childless_node_goes_to_offset_zero() {
    let edits = vec![insert(text("9", 4, 8), "4")];
    let root = diff_tree_from_edits(&document(), edits).root().unwrap();
    let parent = &root.children()[1];
    assert_eq!(
        parent.children(),
        vec![leaf("TEXT", None, span(4, 8), DiffNodeKind::AddedNode, Some(0), false)]
    );
}

#[test]
fn largest_end_counts_not_the_last_child() {
    // The attribute of the root stands last among its children and ends first.
    let edits = vec![insert(text("9", 4, 8), "1")];
    let root = diff_tree_from_edits(&document(), edits).root().unwrap();
    assert_eq!(root.children()[3].insert_pos(), Some(24));
}

#[test]
fn edits_are_not_looked_up_for_inserted_nodes() {
    // The inserted node shares its identity with a node that is to be deleted.
    let inserted = element("2", "z", 60, 70, vec![text("3", 63, 66)]);
    let edits = vec![insert(inserted, "4"), delete("2"), update("3", 0, 1)];
    let root = diff_tree_from_edits(&document(), edits).root().unwrap();
    let children = root.children();
    assert_eq!(children[0].kind(), DiffNodeKind::DeletedNode);
    let added = &children[1].children()[0];
    assert_eq!(added.kind(), DiffNodeKind::AddedNode);
    assert_eq!(added.range2(), span(60, 70));
    assert_eq!(
        added.children(),
        vec![leaf("TEXT", None, span(63, 66), DiffNodeKind::AddedSubNode, None, false)]
    );
    assert!(well_shaped(&root));
}

#[test]
fn edits_below_a_deleted_node_are_still_looked_up() {
    let edits = vec![delete("2"), update("3", 1, 2)];
    let root = diff_tree_from_edits(&document(), edits).root().unwrap();
    let deleted = &root.children()[0];
    assert_eq!(deleted.kind(), DiffNodeKind::DeletedNode);
    assert_eq!(
        deleted.children(),
        vec![leaf("TEXT", span(12, 16), span(1, 2), DiffNodeKind::UpdatedNode, None, false)]
    );
    assert!(well_shaped(&root));
}

#[test]
fn insertion_below_a_deleted_node_keeps_the_inherited_kind() {
    let edits = vec![delete("1"), insert(text("9", 4, 8), "2")];
    let root = diff_tree_from_edits(&document(), edits).root().unwrap();
    assert_eq!(root.kind(), DiffNodeKind::DeletedNode);
    let below = &root.children()[0];
    assert_eq!(below.kind(), DiffNodeKind::DeletedSubNode);
    assert_eq!((below.range1(), below.range2()), (None, None));
    assert_eq!(below.children()[0].kind(), DiffNodeKind::DeletedSubNode);
    assert_eq!(below.children()[0].range1(), span(12, 16));
    assert_eq!(below.children()[1].kind(), DiffNodeKind::AddedNode);
    assert_eq!(below.children()[1].insert_pos(), Some(16));
    assert!(well_shaped(&root));
}

#[test]
fn build_diff_node_by_inherited_kind() {
    let node = element("2", "b", 9, 20, vec![text("3", 12, 16)]);
    let none = EditGroups::new();

    let plain = build_diff_node(&node, &none, DiffNodeKind::NoDiff, None);
    assert_eq!((plain.range1(), plain.range2()), (None, None));
    assert_eq!(plain.children()[0].kind(), DiffNodeKind::NoDiff);

    let gone = build_diff_node(&node, &none, DiffNodeKind::DeletedSubNode, None);
    assert_eq!((gone.range1(), gone.range2()), (span(9, 20), None));
    assert_eq!(gone.children()[0].kind(), DiffNodeKind::DeletedSubNode);
    assert_eq!(gone.children()[0].range1(), span(12, 16));

    let below = build_diff_node(&node, &none, DiffNodeKind::AddedSubNode, None);
    assert_eq!((below.range1(), below.range2()), (None, span(9, 20)));
    assert_eq!(below.children()[0].kind(), DiffNodeKind::AddedSubNode);

    let top = build_diff_node(&node, &none, DiffNodeKind::AddedNode, Some(5));
    assert_eq!(top.kind(), DiffNodeKind::AddedNode);
    assert_eq!((top.range1(), top.range2()), (None, span(9, 20)));
    assert_eq!(top.insert_pos(), Some(5));
    assert_eq!(top.children()[0].kind(), DiffNodeKind::AddedSubNode);
    assert_eq!(top.children()[0].range2(), span(12, 16));
    assert_eq!(top.children()[0].insert_pos(), None);
}

#[test]
fn groups_keep_the_order_of_the_script() {
    let edits = vec![
        update("3", 1, 2),
        insert(text("8", 0, 1), "1"),
        delete("2"),
        insert(text("9", 1, 2), "1"),
        update("3", 5, 6),
    ];
    let groups = group_edits(edits);
    assert_eq!(
        groups.get(&"1".to_string()),
        Some(&vec![insert(text("8", 0, 1), "1"), insert(text("9", 1, 2), "1")])
    );
    assert_eq!(groups.get(&"2".to_string()), Some(&vec![delete("2")]));
    assert_eq!(groups.get(&"3".to_string()), Some(&vec![update("3", 1, 2), update("3", 5, 6)]));
    assert_eq!(groups.get(&"4".to_string()), None);
    assert_eq!(groups.get(&String::new()), None);
}

#[test]
fn groups_grow_by_add() {
    let groups = EditGroups::new();
    assert_eq!(groups.get(&"1".to_string()), None);
    let groups = groups.add(delete("1"));
    let groups = groups.add(insert(text("9", 0, 1), "2"));
    let groups = groups.add(update("1", 0, 1));
    assert_eq!(groups.get(&"1".to_string()), Some(&vec![delete("1"), update("1", 0, 1)]));
    assert_eq!(groups.get(&"2".to_string()), Some(&vec![insert(text("9", 0, 1), "2")]));
    assert_eq!(groups.get(&"9".to_string()), None);
}

#[test]
fn clones_are_equal() {
    let node = document();
    assert_eq!(node.clone(), node);
    let edit = insert(document(), "1");
    assert_eq!(edit.clone(), edit);
    let tree = diff_tree_from_edits(&document(), vec![delete("2"), update("1[x]", 0, 1)]);
    assert_eq!(tree.clone(), tree);
    assert_eq!(tree.root().unwrap().clone(), tree.root().unwrap());
}

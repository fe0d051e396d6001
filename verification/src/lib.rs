//! Diff trees and text patches for pairs of markup documents.
//!
//! Two things are built from the edit script that turns a first document into
//! a second. [`build_diff_tree`] classifies the nodes of the first document
//! as kept, deleted, updated or added to, ready to be shown as a tree.
//! [`apply_changes`] takes changes of the kind that such a tree calls for and
//! edits the first text toward the second. [`split_by_range`] cuts a text at a
//! range, to set one part of it off from the rest.
//!
//! Texts are UTF-8, and all offsets count bytes.

pub mod builder;
pub mod change;
pub mod diff_tree;
pub mod markup;
pub mod order;
pub mod patch;
pub mod range;
pub mod source;
pub mod text;

pub use builder::{build_diff_node, diff_tree_from_edits, group_edits, node_label, EditGroups};
pub use change::Change;
pub use diff_tree::{DiffNode, DiffNodeKind, DiffTree, DiffTreeKind};
pub use markup::build_diff_tree;
pub use patch::{apply_changes, try_apply_changes};
pub use range::Range;
pub use source::{Edit, NodeName, SourceNode};
pub use text::{range_cuts_cleanly, split_by_range, SplittedText};

use diffame::actions::Action;
use diffame::mapping::Mapping;
use diffame::output::json::diff_output;
use diffame::tree::{Tree, TreeBuilder};

fn one_node(kind: &str, label: &str) -> Tree {
    let mut builder = TreeBuilder::new();
    let root_id = builder.add(kind, label, None, 0, 3);
    builder.build(root_id)
}

#[test]
fn entries_hold_one_match_per_link_and_no_action() {
    let source_tree = one_node("X", "");
    let destination_tree = one_node("X", "");
    let mut mapping = Mapping::new();
    mapping.link(source_tree.root(), destination_tree.root());
    let actions: Vec<Action> = vec![];
    let output = diff_output(&source_tree, &destination_tree, &mapping, &actions);
    assert_eq!(output.matches.len(), 1);
    assert_eq!(output.matches[0].src, "X [0,3]");
    assert_eq!(output.matches[0].dest, "X [0,3]");
    assert!(output.actions.is_empty());
}

#[test]
fn move_entry_carries_its_position_and_parent() {
    let mut builder = TreeBuilder::new();
    let source_root = builder.add("R", "", None, 0, 10);
    let source_child = builder.add("C", "", Some(source_root), 0, 5);
    let source_tree = builder.build(source_root);

    let mut builder = TreeBuilder::new();
    let destination_root = builder.add("R", "", None, 0, 10);
    let destination_child = builder.add("C", "", Some(destination_root), 5, 10);
    let destination_tree = builder.build(destination_root);

    let mut mapping = Mapping::new();
    mapping.link(source_root, destination_root);
    mapping.link(source_child, destination_child);
    let actions = vec![Action::MoveTree { node: source_child, parent: destination_root, position: 0 }];
    let output = diff_output(&source_tree, &destination_tree, &mapping, &actions);
    assert_eq!(output.actions.len(), 1);
    let entry = &output.actions[0];
    assert_eq!(entry.action, "move-tree");
    assert_eq!(entry.tree, "C [0,5]");
    assert_eq!(entry.parent.as_deref(), Some("R [0,10]"));
    assert_eq!(entry.at, Some(0));
    assert!(entry.label.is_none());
}

#[test]
fn update_entry_carries_the_new_label() {
    let source_tree = one_node("R", "old");
    let destination_tree = one_node("R", "new");
    let mut mapping = Mapping::new();
    mapping.link(source_tree.root(), destination_tree.root());
    let actions = vec![Action::Update { node: source_tree.root(), new_label: "new".to_string() }];
    let output = diff_output(&source_tree, &destination_tree, &mapping, &actions);
    let entry = &output.actions[0];
    assert_eq!(entry.action, "update-node");
    assert_eq!(entry.label.as_deref(), Some("new"));
    assert!(entry.parent.is_none());
    assert!(entry.at.is_none());
}

#[test]
fn delete_entry_has_no_parent_position_or_label() {
    let source_tree = one_node("R", "");
    let destination_tree = one_node("R", "");
    let actions = vec![Action::DeleteTree { node: source_tree.root() }];
    let mapping = Mapping::new();
    let output = diff_output(&source_tree, &destination_tree, &mapping, &actions);
    assert!(output.matches.is_empty());
    let entry = &output.actions[0];
    assert_eq!(entry.action, "delete-tree");
    assert_eq!(entry.tree, "R [0,3]");
    assert!(entry.parent.is_none());
    assert!(entry.at.is_none());
    assert!(entry.label.is_none());
}

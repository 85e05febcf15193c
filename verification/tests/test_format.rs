use diffame::actions::Action;
use diffame::output::text::action_text;
use diffame::format::format_node;
use diffame::tree::{Tree, TreeBuilder};

fn one_node(kind: &str, label: &str) -> Tree {
    let mut builder = TreeBuilder::new();
    let root_id = builder.add(kind, label, None, 3, 14);
    builder.build(root_id)
}

#[test]
fn test_format_format_node_without_label() {
    let tree = one_node("YamlHash", "");
    assert_eq!(format_node(tree.node(tree.root())), "YamlHash [3,14]");
}

#[test]
fn test_format_format_node_with_label() {
    let tree = one_node("YamlValue", "hello");
    assert_eq!(
        format_node(tree.node(tree.root())),
        "YamlValue: hello [3,14]"
    );
}

#[test]
fn action_text_matches_the_derived_debug_rendering() {
    let actions = vec![
        Action::InsertTree { node: 12, parent: 0, position: 3 },
        Action::InsertNode { node: 1, parent: 2, position: 0 },
        Action::DeleteTree { node: 7 },
        Action::DeleteNode { node: 40 },
        Action::Update { node: 5, new_label: String::from("say \"hi\"\n") },
        Action::MoveTree { node: 9, parent: 10, position: 11 },
    ];
    for action in &actions {
        assert_eq!(action_text(action), format!("{:?}", action));
    }
}

use diffame::format::format_node;
use diffame::tree::{Tree, TreeBuilder};

fn one_node(kind: &str, label: &str) -> Tree {
    let mut b = TreeBuilder::new();
    let r = b.add(kind, label, None, 3, 14);
    b.build(r)
}

#[test]
fn format_format_node_without_label() {
    let t = one_node("YamlHash", "");
    assert_eq!(format_node(t.node(t.root())), "YamlHash [3,14]");
}

#[test]
fn format_format_node_with_label() {
    let t = one_node("YamlValue", "hello");
    assert_eq!(format_node(t.node(t.root())), "YamlValue: hello [3,14]");
}

use diffame::ts_convert::{convert_records, SyntaxRecord};
use diffame::{diff_records, DiffOptions};

fn record(kind: &str, named: bool, start: usize, end: usize, children: Vec<usize>) -> SyntaxRecord {
    SyntaxRecord { kind: String::from(kind), named, start, end, children }
}

#[test]
fn records_convert_depth_first_dropping_unkept_subtrees() {
    let source = b"let x = 1;";
    let records = vec![
        record("program", true, 0, 10, vec![1, 2, 3]),
        record("let", false, 0, 3, vec![]),
        record("binding", true, 4, 9, vec![4, 5]),
        record(";", false, 9, 10, vec![]),
        record("identifier", true, 4, 5, vec![]),
        record("number", true, 8, 9, vec![]),
    ];
    // The binding is dropped with its subtree; everything else is kept.
    let keep = vec![true, true, false, true, true, true];
    let lab = vec![false, true, false, true, true, true];
    let tree = convert_records(&records, source, &keep, &lab);
    assert_eq!(tree.node_count(), 3);
    assert_eq!(tree.node(0).kind, "program");
    assert_eq!(tree.node(0).label, "");
    assert_eq!(tree.node(1).kind, "let");
    assert_eq!(tree.node(1).label, "let");
    assert_eq!(tree.node(1).parent, Some(0));
    assert_eq!(tree.node(2).kind, ";");
    assert_eq!(tree.node(2).label, ";");
    assert_eq!(tree.node(0).children, vec![1, 2]);
}

#[test]
fn kept_subtrees_are_laid_out_in_depth_first_order() {
    let source = b"ab";
    let records = vec![
        record("root", true, 0, 2, vec![1, 2]),
        record("left", true, 0, 1, vec![3]),
        record("right", true, 1, 2, vec![]),
        record("inner", true, 0, 1, vec![]),
    ];
    let keep = vec![true, true, true, true];
    let lab = vec![false, false, true, true];
    let tree = convert_records(&records, source, &keep, &lab);
    assert_eq!(tree.node_count(), 4);
    assert_eq!(tree.node(1).kind, "left");
    assert_eq!(tree.node(2).kind, "inner");
    assert_eq!(tree.node(2).parent, Some(1));
    assert_eq!(tree.node(2).label, "a");
    assert_eq!(tree.node(3).kind, "right");
    assert_eq!(tree.node(3).parent, Some(0));
    assert_eq!(tree.node(3).label, "b");
}

#[test]
fn records_of_two_sources_are_converted_and_diffed() {
    let old_source = b"f(a)";
    let new_source = b"g(a)";
    let old_records = vec![
        record("call", true, 0, 4, vec![1, 2]),
        record("identifier", true, 0, 1, vec![]),
        record("arguments", true, 1, 4, vec![3]),
        record("identifier", true, 2, 3, vec![]),
    ];
    let new_records = vec![
        record("call", true, 0, 4, vec![1, 2]),
        record("identifier", true, 0, 1, vec![]),
        record("arguments", true, 1, 4, vec![3]),
        record("identifier", true, 2, 3, vec![]),
    ];
    let keep = vec![true, true, true, true];
    let lab = vec![false, true, false, true];
    let options = DiffOptions::default();
    let result = diff_records(
        &old_records, &keep, &lab, &new_records, &keep, &lab, old_source, new_source, &options,
    )
    .unwrap();
    assert_eq!(result.src_tree.node_count(), 4);
    assert_eq!(result.dst_tree.node_count(), 4);
    assert_eq!(result.src_tree.node(1).label, "f");
    assert_eq!(result.dst_tree.node(1).label, "g");
    assert_eq!(result.mapping.get_dst(0), Some(0));
    assert_eq!(result.mapping.get_dst(1), Some(1));
    assert_eq!(result.actions.len(), 1);
}

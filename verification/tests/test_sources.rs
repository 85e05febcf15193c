//! Whole-file diffs: size limits, parsing, and the text format.

use diffame::actions::Action;
use diffame::languages::{profile_for_ext, Grammar};
use diffame::output::text::TextFormatter;
use diffame::output::{DiffFormatter, FormatInput};
use diffame::{diff_lines, diff_sources, DiffOptions};

fn limited(max: u64) -> DiffOptions {
    let mut options = DiffOptions::default();
    options.max_file_size = max;
    options
}

#[test]
fn oversized_old_source_is_refused_with_its_size() {
    let profile = profile_for_ext("py").expect("python");
    let error = diff_sources(b"x = 1\n", b"y", &profile, &limited(3)).err().expect("refused");
    assert_eq!(error, "old source exceeds max file size (6 bytes > 3 bytes)");
    let error = diff_lines(b"abcd", b"", &limited(3)).err().expect("refused");
    assert_eq!(error, "old source exceeds max file size (4 bytes > 3 bytes)");
}

#[test]
fn oversized_new_source_is_refused_with_its_size() {
    let profile = profile_for_ext("py").expect("python");
    let error = diff_sources(b"x", b"x = 12\n", &profile, &limited(5)).err().expect("refused");
    assert_eq!(error, "new source exceeds max file size (7 bytes > 5 bytes)");
    let error = diff_lines(b"", b"0123456789ab", &limited(10)).err().expect("refused");
    assert_eq!(error, "new source exceeds max file size (12 bytes > 10 bytes)");
}

#[test]
fn a_limit_of_zero_means_no_limit() {
    let profile = profile_for_ext("py").expect("python");
    assert!(diff_sources(b"x = 1\n", b"x = 2\n", &profile, &limited(0)).is_ok());
    assert!(diff_lines(b"abc", b"abd", &limited(0)).is_ok());
    // A source exactly at the limit is accepted.
    assert!(diff_lines(b"abc", b"abd", &limited(3)).is_ok());
}

#[test]
fn default_options_allow_a_hundred_megabytes_and_a_minute() {
    let options = DiffOptions::default();
    assert_eq!(options.max_file_size, 100 * 1024 * 1024);
    assert_eq!(options.parse_timeout_us, 60_000_000);
}

#[test]
fn parsed_trees_are_rooted_at_their_first_node_and_roots_match() {
    let profile = profile_for_ext("rs").expect("rust");
    let result = diff_sources(b"fn a() {}\n", b"fn b() {}\n", &profile, &DiffOptions::default())
        .expect("diff");
    assert_eq!(result.src_tree.root(), 0);
    assert_eq!(result.dst_tree.root(), 0);
    assert_eq!(result.mapping.get_dst(0), Some(0));
    assert!(result.actions.iter().any(|a| matches!(a, Action::Update { new_label, .. } if new_label == "b")));
}

#[test]
fn every_linked_grammar_parses_its_own_empty_file() {
    for grammar in [Grammar::Rust, Grammar::Python, Grammar::Json, Grammar::Toml, Grammar::Dockerfile, Grammar::Make] {
        assert!(
            diff_sources(b"", b"", &grammar, &DiffOptions::default()).is_ok(),
            "{:?} refused an empty file",
            grammar
        );
    }
}

#[test]
fn text_format_writes_one_debug_line_per_action() {
    let result = diff_lines(b"a\nb\n", b"a\nc\n", &DiffOptions::default()).expect("diff");
    let output = TextFormatter::format(&FormatInput {
        source_bytes: b"a\nb\n",
        destination_bytes: b"a\nc\n",
        result: &result,
        source_filename: None,
        destination_filename: None,
        language_name: None,
    });
    let expected: String = result.actions.iter().map(|a| format!("{:?}\n", a)).collect();
    assert_eq!(output, expected);
    assert!(!output.is_empty());
}

#[test]
fn updates_carry_the_destination_label() {
    // Every update names a mapped source node whose label differs, and
    // carries the destination label.
    let profile = profile_for_ext("py").expect("python");
    let result = diff_sources(b"alpha = 1\nbeta = 2\n", b"alpha = 1\ngamma = 2\n", &profile, &DiffOptions::default())
        .expect("diff");
    let mut updates = 0;
    for action in &result.actions {
        if let Action::Update { node, new_label } = action {
            let destination = result.mapping.get_dst(*node).expect("mapped");
            assert_eq!(&result.dst_tree.node(destination).label, new_label);
            assert_ne!(&result.src_tree.node(*node).label, new_label);
            updates += 1;
        }
    }
    assert_eq!(updates, 1, "got {:?}", result.actions);
}

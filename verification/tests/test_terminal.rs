//! The side-by-side view on small inputs: its layout, its colors, and the
//! promise that every line of both files is shown exactly once.

use diffame::languages;
use diffame::output::strip_ansi;
use diffame::output::terminal::{render_side_by_side, SideBySideInput};
use diffame::{diff_lines, diff_sources, DiffOptions, DiffResult};

fn python_diff(old: &str, new: &str) -> DiffResult {
    let profile = languages::profile_for_ext("py").expect("python profile");
    diff_sources(old.as_bytes(), new.as_bytes(), &profile, &DiffOptions::default()).expect("diff")
}

fn render(
    old: &str,
    new: &str,
    result: &DiffResult,
    filename: Option<&str>,
    language: Option<&str>,
    columns: Option<u16>,
    colored: bool,
) -> String {
    colored::control::set_override(colored);
    let output = render_side_by_side(
        &SideBySideInput {
            source_bytes: old.as_bytes(),
            destination_bytes: new.as_bytes(),
            source_tree: &result.src_tree,
            destination_tree: &result.dst_tree,
            mapping: &result.mapping,
            actions: &result.actions,
            filename,
            language_name: language,
        },
        columns,
    );
    colored::control::unset_override();
    output
}

/// (left number, right number) of every visual line that starts a row.
fn numbers(output: &str) -> Vec<(Option<usize>, Option<usize>)> {
    output
        .lines()
        .filter(|line| line.contains('│'))
        .map(|line| {
            let parts: Vec<&str> = line.split('│').collect();
            (parts[0].trim().parse().ok(), parts[2].trim().parse().ok())
        })
        .filter(|(l, r)| l.is_some() || r.is_some())
        .collect()
}

const OLD: &str = "\
def greet(name):
    print(\"Hello, \" + name)

def add(a, b):
    return a + b
";

const NEW: &str = "\
def add(a, b):
    return a + b

def greet(person):
    print(\"Hi, \" + person)

def extra():
    pass
";

#[test]
fn every_line_of_both_files_is_shown_exactly_once() {
    let result = python_diff(OLD, NEW);
    let output = render(OLD, NEW, &result, None, None, None, false);
    let rows = numbers(&output);
    let mut sources: Vec<usize> = rows.iter().filter_map(|r| r.0).collect();
    let destinations: Vec<usize> = rows.iter().filter_map(|r| r.1).collect();
    assert_eq!(destinations, (1..=8).collect::<Vec<_>>(), "destination lines in order, once each");
    sources.sort_unstable();
    assert_eq!(sources, (1..=5).collect::<Vec<_>>(), "each source line once");
}

#[test]
fn stripping_colors_gives_the_plain_view() {
    let result = python_diff(OLD, NEW);
    let plain = render(OLD, NEW, &result, Some("a.py"), Some("Python"), Some(120), false);
    let colored = render(OLD, NEW, &result, Some("a.py"), Some("Python"), Some(120), true);
    assert!(colored.contains('\x1b'), "colored output carries escape codes");
    assert!(!plain.contains('\x1b'), "plain output carries none");
    assert_eq!(strip_ansi(&colored), plain);
}

#[test]
fn terminal_width_sets_the_content_columns() {
    // 120 columns: (120 - (2 * 3 + 9)) / 2 = 52 columns per side.
    let result = python_diff(OLD, NEW);
    let output = render(OLD, NEW, &result, None, None, Some(120), false);
    let first = output.lines().find(|l| l.contains('│')).expect("a row");
    let parts: Vec<&str> = first.split('│').collect();
    assert_eq!(parts[0].chars().count(), 4, "three digits and a blank");
    assert_eq!(parts[1].chars().count(), 1 + 52 + 1);
    // Without a terminal the columns are fifty wide.
    let output = render(OLD, NEW, &result, None, None, None, false);
    let first = output.lines().find(|l| l.contains('│')).expect("a row");
    let parts: Vec<&str> = first.split('│').collect();
    assert_eq!(parts[1].chars().count(), 1 + 50 + 1);
    // A terminal too narrow for the layout falls back to fifty too.
    let output = render(OLD, NEW, &result, None, None, Some(10), false);
    let first = output.lines().find(|l| l.contains('│')).expect("a row");
    let parts: Vec<&str> = first.split('│').collect();
    assert_eq!(parts[1].chars().count(), 1 + 50 + 1);
}

#[test]
fn header_names_the_file_and_language() {
    let result = python_diff(OLD, NEW);
    let output = render(OLD, NEW, &result, Some("a.py"), Some("Python"), None, false);
    let mut lines = output.lines();
    let header = lines.next().expect("header");
    // Full width: 3 + 3 + 50 + 3 + 3 + 3 + 50 = 115 columns.
    assert_eq!(header, format!(" a.py [Python]{}", " ".repeat(115 - 14)));
    let separator = lines.next().expect("separator");
    assert_eq!(
        separator,
        format!("{}─┼─{}─┼─{}─┼─{}", "─".repeat(3), "─".repeat(50), "─".repeat(3), "─".repeat(50))
    );
    let only_language = render(OLD, NEW, &result, None, Some("Python"), None, false);
    assert!(only_language.starts_with(" [Python] "));
    let none = render(OLD, NEW, &result, None, None, None, false);
    assert!(!none.contains('┼'), "no header and a single hunk: no separator");
}

#[test]
fn long_lines_wrap_with_blank_number_cells() {
    let old = "x = 1\n";
    let new = "x = 1\ny = \"abcdefghijklmnopqrstuvwxyz\"\n";
    let result = python_diff(old, new);
    // 30 columns: (30 - 15) / 2 = 7 columns per side.
    let output = render(old, new, &result, None, None, Some(30), false);
    let lines: Vec<&str> = output.lines().collect();
    let inserted: Vec<&&str> = lines.iter().filter(|l| l.contains("•")).collect();
    assert!(inserted.len() >= 5, "the inserted line wraps: {:?}", lines);
    assert!(inserted[0].contains("  2"), "the number is on the first visual line");
    assert!(!inserted[1].contains('2'), "continuation lines have blank numbers");
    for line in &inserted {
        let parts: Vec<&str> = line.split('│').collect();
        assert_eq!(parts[1], " ••••••• ", "an absent line is filled with dots");
    }
}

#[test]
fn wide_characters_take_two_columns() {
    let old = "a = 1\n";
    let new = "a = 1\n\"日本語日本語\"\n";
    let result = python_diff(old, new);
    let output = render(old, new, &result, None, None, Some(30), false);
    let right: Vec<String> = output
        .lines()
        .filter(|l| l.contains("•"))
        .map(|l| l.split('│').nth(3).unwrap_or("").trim_start_matches(' ').to_string())
        .collect();
    // Seven columns hold a quote and three wide characters.
    assert_eq!(right, vec!["\"日本語".to_string(), "日本語\"".to_string()]);
}

#[test]
fn distant_changes_form_separate_hunks() {
    let mut old = String::new();
    for i in 0..20 {
        old.push_str(&format!("v{} = {}\n", i, i));
    }
    let new = old.replacen("v0 = 0", "v0 = 100", 1).replacen("v19 = 19", "v19 = 119", 1);
    let result = python_diff(&old, &new);
    let output = render(&old, &new, &result, None, None, None, false);
    let separators = output.lines().filter(|l| l.contains("─┼─")).count();
    assert_eq!(separators, 1, "two hunks, one separator between them");
    let rows = numbers(&output);
    // Three rows of context on each side of each change.
    assert_eq!(rows.len(), 4 + 4);
    assert_eq!(rows[0], (Some(1), Some(1)));
    assert_eq!(rows[7], (Some(20), Some(20)));
}

#[test]
fn identical_inputs_show_nothing() {
    let text = "a = 1\nb = 2\n";
    let result = python_diff(text, text);
    let output = render(text, text, &result, None, None, None, false);
    assert_eq!(output, "");
}

#[test]
fn line_diff_results_render_too() {
    let old = "one\ntwo\nthree\n";
    let new = "one\n2\nthree\n";
    let result = diff_lines(old.as_bytes(), new.as_bytes(), &DiffOptions::default()).expect("diff");
    let output = render(old, new, &result, None, None, None, false);
    let rows = numbers(&output);
    let destinations: Vec<usize> = rows.iter().filter_map(|r| r.1).collect();
    assert_eq!(destinations, vec![1, 2, 3]);
}

#[test]
fn unchanged_single_line_draws_nothing() {
    let bytes = b"a\n";
    let mut builder = diffame::tree::TreeBuilder::new();
    let root = builder.add("m", "", None, 0, 2);
    let leaf = builder.add("identifier", "a", Some(root), 0, 1);
    let tree = builder.build(root);
    let mut mapping = diffame::mapping::Mapping::new();
    assert!(mapping.link(root, root));
    assert!(mapping.link(leaf, leaf));
    let actions: Vec<diffame::actions::Action> = Vec::new();
    let output = diffame::side_by_side::format_side_by_side(&diffame::side_by_side::SideBySideInput {
        source_bytes: bytes,
        destination_bytes: bytes,
        source_tree: &tree,
        destination_tree: &tree,
        mapping: &mapping,
        actions: &actions,
        filename: None,
        language_name: None,
    });
    assert_eq!(output, "");
}

//! Regression tests for side-by-side rendering.
//!
//! Each test exercises a specific rendering defect.
//! They all use real Python source through `diff_sources` so the full
//! pipeline (tree-sitter → matcher → actions → renderer) is exercised.

use std::collections::HashSet;

use diffame::languages;
use diffame::side_by_side::{format_side_by_side, SideBySideInput};
use diffame::{diff_sources, DiffOptions};

/// Helper: diff two Python snippets and return the side-by-side output with
/// ANSI colors stripped.
fn side_by_side_plain(old: &str, new: &str) -> String {
    colored::control::set_override(false);
    let output = side_by_side_raw(old, new);
    colored::control::unset_override();
    output
}

/// Helper: diff two Python snippets and return the side-by-side output with
/// ANSI color codes included.
fn side_by_side_colored(old: &str, new: &str) -> String {
    colored::control::set_override(true);
    let output = side_by_side_raw(old, new);
    colored::control::unset_override();
    output
}

fn side_by_side_raw(old: &str, new: &str) -> String {
    let profile = languages::profile_for_ext("py").expect("python profile");
    let result = diff_sources(
        old.as_bytes(),
        new.as_bytes(),
        &profile,
        &DiffOptions::default(),
    )
    .expect("diff failed");
    format_side_by_side(&SideBySideInput {
        source_bytes: old.as_bytes(),
        destination_bytes: new.as_bytes(),
        source_tree: &result.src_tree,
        destination_tree: &result.dst_tree,
        mapping: &result.mapping,
        actions: &result.actions,
        filename: None,
        language_name: None,
    })
}

/// Parse plain-text rows into (left_num, left_text, right_num, right_text).
fn parse_rows(output: &str) -> Vec<(Option<usize>, String, Option<usize>, String)> {
    output
        .lines()
        .filter(|line| line.contains('│'))
        .map(|line| {
            let clean = strip_ansi(line);
            let parts: Vec<&str> = clean.split('│').collect();
            if parts.len() < 4 {
                return (None, String::new(), None, String::new());
            }
            let left_num = parts[0].trim().parse::<usize>().ok();
            let left_text = parts[1].trim().to_string();
            let right_num = parts[2].trim().parse::<usize>().ok();
            let right_text = parts[3].trim().to_string();
            (left_num, left_text, right_num, right_text)
        })
        .collect()
}

/// Strip ANSI escape codes from a string.
fn strip_ansi(input: &str) -> String {
    let mut result = String::new();
    let mut in_escape = false;
    for ch in input.chars() {
        if ch == '\x1b' {
            in_escape = true;
        } else if in_escape {
            if ch == 'm' {
                in_escape = false;
            }
        } else {
            result.push(ch);
        }
    }
    result
}

const ANSI_YELLOW: &str = "\x1b[33m";
const ANSI_CYAN: &str = "\x1b[36m";

const FUNC_OLD: &str = "\
def greet(name):
    print(\"Hello, \" + name)

def add(a, b):
    return a + b

def unused():
    pass
";

const FUNC_NEW: &str = "\
def add(a, b):
    return a + b

def greet(person):
    print(\"Hi, \" + person)

def multiply(a, b):
    return a * b

def helper():
    x = 1
    return x
";

/// Issue 1: A blank line that exists in both files at the boundary between
/// functions should not appear as a deleted row on the left with no right
/// counterpart.
#[test]
fn blank_lines_preserved_in_both_files_are_not_shown_as_deleted() {
    let output = side_by_side_plain(FUNC_OLD, FUNC_NEW);
    let rows = parse_rows(&output);

    let phantom_blank_deletes: Vec<_> = rows
        .iter()
        .filter(|(left_num, left_text, right_num, _)| {
            left_num.is_some() && left_text.trim().is_empty() && right_num.is_none()
        })
        .collect();

    assert!(
        phantom_blank_deletes.is_empty(),
        "Blank lines that exist in both files should not appear as deleted rows.\n\
         Found {} phantom blank-line delete(s): {:?}",
        phantom_blank_deletes.len(),
        phantom_blank_deletes,
    );
}

/// Issue 2: When only a single token on a line changes (e.g. `name` → `person`),
/// the unchanged portions of the line (like `def greet(`) must NOT be colored
/// yellow. Only the changed token should be yellow.
#[test]
fn updated_line_colors_only_changed_tokens() {
    let old = "def greet(name):\n    pass\n";
    let new = "def greet(person):\n    pass\n";
    let output = side_by_side_colored(old, new);

    // Find the line containing the greet definition.
    let greet_line = output
        .lines()
        .find(|line| strip_ansi(line).contains("def greet("))
        .expect("should have a line containing 'def greet('");

    // The unchanged prefix `def greet(` must NOT be wrapped in yellow.
    // If the entire line is yellow, `def greet(` will be preceded by the
    // yellow ANSI code. Check that `def greet(` does NOT appear immediately
    // after a yellow escape.
    //
    // Split by the separator │ to isolate the left content column.
    let left_content = greet_line
        .split('│')
        .nth(1)
        .expect("should have left content column");

    // If `def` is inside a yellow span, the yellow escape code will appear
    // before it with no reset in between. The whole left column being yellow
    // means ANSI_YELLOW appears and then `def` follows without a reset.
    assert!(
        !left_content.contains(&format!("{}def greet(", ANSI_YELLOW)),
        "The unchanged prefix 'def greet(' should not be colored yellow.\n\
         Full left column: {:?}",
        left_content,
    );

    // But the changed token `name` SHOULD be yellow on the left.
    assert!(
        left_content.contains(ANSI_YELLOW),
        "The changed token 'name' should be colored yellow.\n\
         Full left column: {:?}",
        left_content,
    );
}

/// Issue 3: A function that kept its relative position among its peers should
/// NOT have cyan (moved) line numbers. `unused` stayed after `add` in both
/// files, it was not reordered.
#[test]
fn non_reordered_function_is_not_marked_as_moved() {
    let output = side_by_side_colored(FUNC_OLD, FUNC_NEW);

    // Find the line where source shows "def unused".
    let unused_line = output
        .lines()
        .find(|line| strip_ansi(line).contains("def unused"))
        .expect("should have a line for def unused");

    // The source line number (left column) for this row should NOT be cyan.
    let left_number_column = unused_line
        .split('│')
        .next()
        .expect("should have left number column");

    assert!(
        !left_number_column.contains(ANSI_CYAN),
        "Line number for 'def unused' should not be cyan (it was not moved).\n\
         Left number column: {:?}",
        left_number_column,
    );
}

/// The user's actual test case: FUNC_OLD + think appended, FUNC_NEW + think
/// appended. The output should pair greet↔greet, add↔add, think↔think because
/// the leaf-level identifiers map correctly (greet→greet, think→think).
///
/// The bug: parent-level function_definition mappings can disagree with leaf
/// mappings (greet's function_definition maps to think's function_definition),
/// and the section-constrained approach used the WRONG level to constrain,
/// garbling the output.
#[test]
fn extended_test_case_pairs_functions_by_leaf_identity() {
    let old = "\
def greet(name):
    print(\"Hello, \" + name)

def add(a, b):
    return a + b

def unused():
    pass

def think(about):
    print(about)
";
    let new = "\
def add(a, b):
    return a + b

def greet(person):
    print(\"Hi, \" + person)

def multiply(a, b):
    return a * b

def helper():
    x = 1
    return x

def think(thought):
    print(\"Thinking about \" + thought)
";
    let output = side_by_side_plain(old, new);
    let rows = parse_rows(&output);

    // No source line number may appear more than once.
    let source_line_numbers: Vec<usize> = rows
        .iter()
        .filter_map(|(left_num, _, _, _)| *left_num)
        .collect();
    let unique_source: HashSet<usize> = source_line_numbers.iter().copied().collect();
    assert_eq!(
        source_line_numbers.len(),
        unique_source.len(),
        "Source line numbers must be unique. Duplicates found in: {:?}",
        source_line_numbers,
    );

    // greet must pair with greet.
    let greet_row = rows
        .iter()
        .find(|(_, _, _, right)| right.contains("def greet"))
        .expect("should have a row with 'def greet' on the right");
    assert!(
        greet_row.1.contains("def greet"),
        "right 'def greet' should pair with left 'def greet', got left={:?}",
        greet_row.1,
    );

    // think must pair with think.
    let think_row = rows
        .iter()
        .find(|(_, _, _, right)| right.contains("def think"))
        .expect("should have a row with 'def think' on the right");
    assert!(
        think_row.1.contains("def think"),
        "right 'def think' should pair with left 'def think', got left={:?}",
        think_row.1,
    );

    // add must pair with add.
    let add_row = rows
        .iter()
        .find(|(_, _, _, right)| right.contains("def add"))
        .expect("should have a row with 'def add' on the right");
    assert!(
        add_row.1.contains("def add"),
        "right 'def add' should pair with left 'def add', got left={:?}",
        add_row.1,
    );

    // think's print(about) must pair with think's print(... thought).
    let think_print_row = rows
        .iter()
        .find(|(_, _, _, right)| right.contains("Thinking about"))
        .expect("should have a row for think's print");
    assert!(
        think_print_row.1.contains("print(about)"),
        "think's print should pair with 'print(about)', got left={:?}",
        think_print_row.1,
    );
}

/// Structural invariants that must hold for any diff output.
#[test]
fn cross_function_leaf_mapping_does_not_garble_lines() {
    let old = "\
def format_name(first, last):
    full = first + \" \" + last
    return full.upper()

def add(a, b):
    return a + b

def process(items):
    for item in items:
        print(item)
    return len(items)
";
    let new = "\
def format_name(given, family):
    full = given + \" \" + family
    return full.upper()

def add(x, y):
    return x + y

def process(entries):
    for entry in entries:
        print(entry)
    return len(entries)
";
    let output = side_by_side_plain(old, new);
    let rows = parse_rows(&output);

    // No source line number appears more than once.
    let source_line_numbers: Vec<usize> = rows
        .iter()
        .filter_map(|(left_num, _, _, _)| *left_num)
        .collect();
    let unique_source: HashSet<usize> = source_line_numbers.iter().copied().collect();
    assert_eq!(
        source_line_numbers.len(),
        unique_source.len(),
        "Source line numbers must be unique. Duplicates found in: {:?}",
        source_line_numbers,
    );

    // No destination line number appears more than once.
    let destination_line_numbers: Vec<usize> = rows
        .iter()
        .filter_map(|(_, _, right_num, _)| *right_num)
        .collect();
    let unique_destination: HashSet<usize> = destination_line_numbers.iter().copied().collect();
    assert_eq!(
        destination_line_numbers.len(),
        unique_destination.len(),
        "Destination line numbers must be unique. Duplicates found in: {:?}",
        destination_line_numbers,
    );
}

// ── Helpers for language-generic tests ──────────────────────────────────

const ANSI_GREEN: &str = "\x1b[32m";
const ANSI_RED: &str = "\x1b[31m";

fn side_by_side_lang_plain(old: &str, new: &str, ext: &str) -> String {
    colored::control::set_override(false);
    let output = side_by_side_lang_raw(old, new, ext);
    colored::control::unset_override();
    output
}

fn side_by_side_lang_colored(old: &str, new: &str, ext: &str) -> String {
    colored::control::set_override(true);
    let output = side_by_side_lang_raw(old, new, ext);
    colored::control::unset_override();
    output
}

fn side_by_side_lang_raw(old: &str, new: &str, ext: &str) -> String {
    let profile = languages::profile_for_ext(ext).expect("language profile");
    let result = diff_sources(
        old.as_bytes(),
        new.as_bytes(),
        &profile,
        &DiffOptions::default(),
    )
    .expect("diff failed");
    format_side_by_side(&SideBySideInput {
        source_bytes: old.as_bytes(),
        destination_bytes: new.as_bytes(),
        source_tree: &result.src_tree,
        destination_tree: &result.dst_tree,
        mapping: &result.mapping,
        actions: &result.actions,
        filename: None,
        language_name: None,
    })
}

/// Returns `true` if `needle` appears inside an active `color_code` span.
fn has_color_at(text: &str, needle: &str, color_code: &str) -> bool {
    let Some(pos) = text.find(needle) else {
        return false;
    };
    let before = &text[..pos];
    let mut last_esc: Option<usize> = None;
    let mut s = 0;
    while let Some(idx) = before[s..].find("\x1b[") {
        last_esc = Some(s + idx);
        s += idx + 1;
    }
    last_esc.is_some_and(|ep| before[ep..].starts_with(color_code))
}

// ── Bug-fix tests ──────────────────────────────────────────────────────

/// Bug 2: Adding a single line to a TOML dependency list must not unpair
/// every existing dependency.
#[test]
fn toml_single_addition_pairs_unchanged_lines() {
    let old = "[dependencies]\ncolored = \"2\"\nserde = \"1\"\n";
    let new = "[dependencies]\ncolored = \"2\"\nserde = \"1\"\nterminal_size = \"0.4\"\n";
    let output = side_by_side_lang_plain(old, new, "toml");
    let rows = parse_rows(&output);

    let paired = rows
        .iter()
        .filter(|(l, _, r, _)| l.is_some() && r.is_some())
        .count();
    assert!(
        paired >= 3,
        "Expected at least 3 paired rows for the unchanged lines, got {paired}.\nRows: {rows:?}",
    );
}

/// Bug 4: Inserting a line must not break pairing of its neighbours.
#[test]
fn inserted_line_does_not_break_neighbor_pairing() {
    let old = "impl Foo {\n    pub fn new() -> Self {\n        Self::default()\n    }\n}\n";
    let new =
        "impl Foo {\n    #[must_use]\n    pub fn new() -> Self {\n        Self::default()\n    }\n}\n";
    let output = side_by_side_lang_plain(old, new, "rs");
    let rows = parse_rows(&output);

    let new_fn_row = rows
        .iter()
        .find(|(_, _, _, right)| right.contains("pub fn new"))
        .expect("should have 'pub fn new' on the right");
    assert!(
        new_fn_row.1.contains("pub fn new"),
        "'pub fn new' right should pair with left, got left={:?}",
        new_fn_row.1,
    );

    let must_use_row = rows
        .iter()
        .find(|(_, _, _, right)| right.contains("must_use"))
        .expect("should have '#[must_use]' on the right");
    assert!(
        must_use_row.0.is_none(),
        "'#[must_use]' should be destination-only, got left_num={:?}",
        must_use_row.0,
    );
}

/// Bug 1: Unpaired new lines must have their content highlighted green.
#[test]
fn unpaired_new_lines_are_fully_highlighted() {
    let old = "\
fn compute() -> usize {
    let default = 50;
    let content_width = default;
    content_width
}
";
    let new = "\
fn compute() -> usize {
    let content_width = {
        let default = 50;
        let chrome = 2 + 9;
        if chrome > 0 { default - chrome } else { default }
    };
    content_width
}
";
    let output = side_by_side_lang_colored(old, new, "rs");

    // The `if chrome > 0 ...` line is completely new (no old counterpart).
    // Even though `default` is mapped to a node in the old file, the entire
    // unpaired line should be green.
    for line in output.lines() {
        let clean = strip_ansi(line);
        if !clean.contains("if chrome > 0") {
            continue;
        }
        let parts: Vec<&str> = clean.split('│').collect();
        if parts.len() >= 4 && !parts[0].trim().is_empty() {
            continue;
        }
        let right_content = line.split('│').nth(3).unwrap_or("");
        assert!(
            has_color_at(right_content, "default", ANSI_GREEN),
            "Token 'default' on unpaired new line should be green.\n\
             Right content: {right_content:?}",
        );
        return;
    }
    panic!("did not find an unpaired line containing 'if chrome > 0'");
}

/// Paired lines with identical text must NOT be colored, even when the
/// AST matcher fails to map their internal nodes (e.g. on moved code).
#[test]
fn identical_paired_lines_have_no_coloring() {
    // `greet` moves from first to third position; its body lines are
    // identical but the AST mapper may fail to link interior nodes.
    let old = "\
def greet(name):
    print(\"Hello, \" + name)

def add(a, b):
    return a + b
";
    let new = "\
def add(a, b):
    return a + b

def greet(name):
    print(\"Hello, \" + name)
";
    let output = side_by_side_colored(old, new);

    // `print("Hello, " + name)` appears on both sides — the text is
    // identical. No red or green should appear in that row.
    // (If the line isn't shown at all — no nearby changes — that's fine.)
    for line in output.lines() {
        let clean = strip_ansi(line);
        if !clean.contains("Hello") {
            continue;
        }
        let left_content = line.split('│').nth(1).unwrap_or("");
        let right_content = line.split('│').nth(3).unwrap_or("");
        assert!(
            !left_content.contains(ANSI_RED) && !left_content.contains(ANSI_GREEN),
            "Identical left line should have no red/green.\nLeft: {left_content:?}",
        );
        assert!(
            !right_content.contains(ANSI_RED) && !right_content.contains(ANSI_GREEN),
            "Identical right line should have no red/green.\nRight: {right_content:?}",
        );
        return;
    }
    // Line not in output means no hunks reached it — no coloring issue.
}

/// On a paired but changed line, gap text (keywords, brackets, semicolons)
/// that exists on BOTH sides must NOT be colored.
#[test]
fn gap_text_on_changed_line_is_not_colored() {
    let old = "\
fn foo() {
    let mut v: Vec<usize> = items.to_vec();
    v
}
";
    let new = "\
fn foo() {
    let mut v: Vec<usize> = items.clone();
    v
}
";
    let output = side_by_side_lang_colored(old, new, "rs");

    // The line changed (.to_vec → .clone) but `let`, `<`, `>`, `:`, `;`
    // are identical gap text that must NOT be red/green.
    for line in output.lines() {
        let clean = strip_ansi(line);
        if !clean.contains("to_vec") {
            continue;
        }
        let left_content = line.split('│').nth(1).unwrap_or("");
        // `let` must not be red on the old side.
        assert!(
            !has_color_at(left_content, "let", ANSI_RED),
            "'let' should not be red on a changed line.\nLeft: {left_content:?}",
        );
        return;
    }
    panic!("did not find a line containing 'to_vec'");
}

/// Multi-byte Unicode characters (like box-drawing `─`) must not break
/// column alignment. The display width of `─` is 1, not its 3-byte UTF-8
/// length.
#[test]
fn unicode_box_drawing_does_not_break_layout() {
    let old = "fn sep() {\n    let s = \"─┼─\";\n    s\n}\n";
    let new = "fn sep() {\n    let s = \"A┼B\";\n    s\n}\n";
    let output = side_by_side_lang_plain(old, new, "rs");

    // Every row with a separator │ must have exactly 4 columns.
    for line in output.lines() {
        if !line.contains('│') {
            continue;
        }
        let clean = strip_ansi(line);
        let cols: Vec<&str> = clean.split('│').collect();
        assert_eq!(
            cols.len(),
            4,
            "Every row should have 4 columns (3 separators), got {}.\nLine: {:?}",
            cols.len(),
            clean,
        );
    }
}

/// Keywords and operators are tree-sitter anonymous tokens.  When one is
/// ADDED on a paired changed line it must appear green, not unstyled.
#[test]
fn added_keyword_on_changed_line_is_green() {
    let old = "\
fn foo() {
    bar();
}
";
    let new = "\
fn foo() {
    let x = bar();
    x
}
";
    let output = side_by_side_lang_colored(old, new, "rs");

    // `bar();` paired with `let x = bar();`.  `let` is a new keyword.
    for line in output.lines() {
        let clean = strip_ansi(line);
        if !clean.contains("let x = bar") {
            continue;
        }
        let right_content = line.split('│').nth(3).unwrap_or("");
        assert!(
            has_color_at(right_content, "let", ANSI_GREEN),
            "'let' added to a changed line should be green.\nRight: {right_content:?}",
        );
        return;
    }
    panic!("did not find a line containing 'let x = bar'");
}

/// When a keyword is REMOVED on a paired changed line it must appear red.
#[test]
fn removed_keyword_on_changed_line_is_red() {
    let old = "\
fn foo() {
    if flag { bar(); }
}
";
    let new = "\
fn foo() {
    bar();
}
";
    let output = side_by_side_lang_colored(old, new, "rs");

    // `if flag { bar(); }` paired with `bar();`.  `if` is removed.
    for line in output.lines() {
        let clean = strip_ansi(line);
        if !clean.contains("if flag") {
            continue;
        }
        let left_content = line.split('│').nth(1).unwrap_or("");
        assert!(
            has_color_at(left_content, "if", ANSI_RED),
            "'if' removed from a changed line should be red.\nLeft: {left_content:?}",
        );
        return;
    }
    panic!("did not find a line containing 'if flag'");
}

/// When functions are reordered, identical lines like `return a + b`
/// that fall between non-monotonic anchors must still be paired.
#[test]
fn reordered_functions_still_pair_identical_lines() {
    let output = side_by_side_plain(FUNC_OLD, FUNC_NEW);
    let rows = parse_rows(&output);

    // `return a + b` exists in both files — it must be paired.
    let return_row = rows
        .iter()
        .find(|(_, left, _, _)| left.contains("return a + b"))
        .expect("should have 'return a + b' on the left");
    assert!(
        return_row.2.is_some() && return_row.3.contains("return a + b"),
        "'return a + b' on left must pair with identical right, got right={:?}",
        return_row.3,
    );
}

/// A comment that replaces a code line must be fully green — both the
/// `//` prefix AND the comment text.  tree-sitter splits `//` as a
/// separate child of `line_comment`; the comment body must not become
/// invisible gap text.
#[test]
fn added_comment_is_fully_green() {
    let old = "\
fn foo() {
    old_call();
    bar();
}
";
    let new = "\
fn foo() {
    // this is new
    bar();
}
";
    let output = side_by_side_lang_colored(old, new, "rs");

    for line in output.lines() {
        let clean = strip_ansi(line);
        if !clean.contains("this is new") {
            continue;
        }
        let right_content = line.split('│').nth(3).unwrap_or("");
        // The whole comment text (not just //) must be green.
        assert!(
            has_color_at(right_content, "this is new", ANSI_GREEN),
            "Comment body should be green, not just the '//' prefix.\n\
             Right: {right_content:?}",
        );
        return;
    }
    panic!("did not find a line containing 'this is new'");
}

/// When a statement-style function body is refactored to expression style,
/// `.collect();` must pair with `.collect()` (nearly identical), and the
/// now-removed `result`-style return line must be left unpaired — not
/// paired positionally with a completely dissimilar line.
#[test]
fn similar_lines_pair_instead_of_positional_neighbors() {
    let old = "\
fn kept(node: &Node, profile: &Profile) -> Vec<Node> {
    let children: Vec<Node> = node
        .named_children()
        .filter(|child| profile.keep(child))
        .collect();
    children
}
";
    let new = "\
fn kept(node: &Node, profile: &Profile) -> Vec<Node> {
    node
        .children()
        .filter(|child| profile.keep(child) || child.is_leaf())
        .collect()
}
";
    let output = side_by_side_lang_plain(old, new, "rs");
    let rows = parse_rows(&output);

    // The right `.collect()` row must have `.collect` on the left too.
    let collect_row = rows
        .iter()
        .find(|(_, _, _, right)| right.contains(".collect()"))
        .expect("should have '.collect()' on the right");
    assert!(
        collect_row.1.contains(".collect"),
        "right '.collect()' should pair with left '.collect();', got left={:?}",
        collect_row.1,
    );

    // The bare `children` return line was removed — it must be left-only.
    let children_row = rows
        .iter()
        .find(|(_, left, _, _)| left.trim() == "children")
        .expect("should have the bare 'children' return line on the left");
    assert!(
        children_row.2.is_none(),
        "the removed 'children' return line must be unpaired, got right_num={:?} right={:?}",
        children_row.2,
        children_row.3,
    );
}


//! Plain-text output format: one action per line, written as its derived
//! `Debug` implementation shows it.

use vstd::prelude::*;
use vstd::string::StringExecFns;

use super::{DiffFormatter, FormatInput};
use crate::actions::Action;
use crate::decimal::{decimal_spec, push_decimal};
use crate::text::push_char;

verus! {

/// The `Debug` rendering of a text (`<str as Debug>::fmt`): the text
/// quoted, with its special characters escaped.
pub uninterp spec fn debug_str(text: Seq<char>) -> Seq<char>;

/// Renders a text with `str`'s `Debug` implementation (`format!("{:?}", ..)`);
/// the result is a function of the text alone.
#[verifier::external_body]
fn str_debug(text: &str) -> (s: String)
    ensures
        s@ == debug_str(text@),
{
    format!("{:?}", text)
}

/// Three numbered fields of an action, the way a derived `Debug` shows them.
pub open spec fn placed_fields(node: usize, parent: usize, position: usize) -> Seq<char> {
    " { node: "@ + decimal_spec(node as nat) + ", parent: "@ + decimal_spec(parent as nat) + ", position: "@
        + decimal_spec(position as nat) + " }"@
}

/// The `Debug` rendering of an action: its variant's name, then its fields
/// by name in braces, numbers in decimal and the label quoted.
pub open spec fn debug_text(action: Action) -> Seq<char> {
    match action {
        Action::InsertTree { node, parent, position } => "InsertTree"@ + placed_fields(node, parent, position),
        Action::InsertNode { node, parent, position } => "InsertNode"@ + placed_fields(node, parent, position),
        Action::DeleteTree { node } => "DeleteTree { node: "@ + decimal_spec(node as nat) + " }"@,
        Action::DeleteNode { node } => "DeleteNode { node: "@ + decimal_spec(node as nat) + " }"@,
        Action::Update { node, new_label } => "Update { node: "@ + decimal_spec(node as nat) + ", new_label: "@
            + debug_str(new_label@) + " }"@,
        Action::MoveTree { node, parent, position } => "MoveTree"@ + placed_fields(node, parent, position),
    }
}

/// Appends the three numbered fields of an action.
fn push_placed_fields(out: &mut String, node: usize, parent: usize, position: usize)
    ensures
        final(out)@ == old(out)@ + placed_fields(node, parent, position),
{
    out.append(" { node: ");
    push_decimal(out, node as u64);
    out.append(", parent: ");
    push_decimal(out, parent as u64);
    out.append(", position: ");
    push_decimal(out, position as u64);
    out.append(" }");
    assert(out@ =~= old(out)@ + placed_fields(node, parent, position));
}

/// Renders an action as its derived `Debug` implementation does.
pub fn action_text(action: &Action) -> (s: String)
    ensures
        s@ == debug_text(*action),
{
    let mut out = String::new();
    match action {
        Action::InsertTree { node, parent, position } => {
            out.append("InsertTree");
            push_placed_fields(&mut out, *node, *parent, *position);
        },
        Action::InsertNode { node, parent, position } => {
            out.append("InsertNode");
            push_placed_fields(&mut out, *node, *parent, *position);
        },
        Action::DeleteTree { node } => {
            out.append("DeleteTree { node: ");
            push_decimal(&mut out, *node as u64);
            out.append(" }");
        },
        Action::DeleteNode { node } => {
            out.append("DeleteNode { node: ");
            push_decimal(&mut out, *node as u64);
            out.append(" }");
        },
        Action::Update { node, new_label } => {
            out.append("Update { node: ");
            push_decimal(&mut out, *node as u64);
            out.append(", new_label: ");
            let quoted = str_debug(new_label.as_str());
            out.append(quoted.as_str());
            out.append(" }");
        },
        Action::MoveTree { node, parent, position } => {
            out.append("MoveTree");
            push_placed_fields(&mut out, *node, *parent, *position);
        },
    }
    proof {
        assert(out@ =~= debug_text(*action));
    }
    out
}

/// The first `k` actions, each rendered on a line of its own.
pub open spec fn action_lines(actions: Seq<Action>, k: int) -> Seq<char>
    decreases k,
{
    if k <= 0 {
        seq![]
    } else {
        action_lines(actions, k - 1) + debug_text(actions[k - 1]) + seq!['\n']
    }
}

/// The plain-text format.
pub struct TextFormatter;

impl DiffFormatter for TextFormatter {
    fn format(input: &FormatInput) -> (output: String)
        ensures
            output@ == action_lines(input.result.actions@, input.result.actions@.len() as int),
    {
        let actions = &input.result.actions;
        let mut output = String::new();
        let mut i: usize = 0;
        proof {
            assert(output@ =~= action_lines(actions@, 0));
        }
        while i < actions.len()
            invariant
                i <= actions@.len(),
                output@ == action_lines(actions@, i as int),
            decreases actions@.len() - i,
        {
            let line = action_text(&actions[i]);
            output.append(line.as_str());
            push_char(&mut output, '\n');
            i += 1;
        }
        output
    }
}

} // verus!

//! Output formatters for diff results.
//!
//! Each formatter implements [`DiffFormatter`] so the CLI can dispatch on `-f`
//! without knowing the details of any specific output format. This module
//! holds what the formats share: node display strings, ANSI stripping, and
//! the JSON document's contents.

pub mod json;
pub mod line_pairing;
pub mod paint;
pub mod terminal;
pub mod text;

use vstd::prelude::*;
use vstd::string::StringExecFns;

use crate::decimal::{decimal_spec, push_decimal};
use crate::text::{chars_of, push_char};
use crate::tree::Node;
use crate::DiffResult;

verus! {

/// Everything a formatter needs to produce output.
pub struct FormatInput<'a> {
    pub source_bytes: &'a [u8],
    pub destination_bytes: &'a [u8],
    pub result: &'a DiffResult,
    /// Original path of the old file, shown on the left of the header.
    pub source_filename: Option<&'a str>,
    /// Original path of the new file, shown on the right of the header.
    pub destination_filename: Option<&'a str>,
    /// Detected language name, shown in the side-by-side header.
    pub language_name: Option<&'a str>,
}

/// Common interface implemented by every output format.
pub trait DiffFormatter {
    fn format(input: &FormatInput) -> String;
}

/// What remains of `chars` once every escape sequence (`ESC` up to and
/// including the next `m`) is removed, starting inside one if `in_escape`.
pub open spec fn strip_ansi_from(chars: Seq<char>, in_escape: bool) -> Seq<char>
    decreases chars.len(),
{
    if chars.len() == 0 {
        seq![]
    } else {
        let c = chars[0];
        let rest = chars.drop_first();
        if c == '\x1b' {
            strip_ansi_from(rest, true)
        } else if in_escape {
            strip_ansi_from(rest, c != 'm')
        } else {
            seq![c] + strip_ansi_from(rest, false)
        }
    }
}

/// Removes ANSI escape sequences (`ESC [ ... m`) from a string.
///
/// Formatters always emit styled output; callers that need plain text
/// (non-terminal stdout, tests) strip the styling at the edge.
pub fn strip_ansi(input: &str) -> (r: String)
    ensures
        r@ == strip_ansi_from(input@, false),
{
    let chars = chars_of(input);
    let mut result = String::new();
    let mut in_escape = false;
    let mut i: usize = 0;
    proof {
        assert(chars@.skip(0) =~= chars@);
        assert(result@ + strip_ansi_from(chars@, false) =~= strip_ansi_from(chars@, false));
    }
    while i < chars.len()
        invariant
            i <= chars@.len(),
            result@ + strip_ansi_from(chars@.skip(i as int), in_escape) == strip_ansi_from(chars@, false),
        decreases chars@.len() - i,
    {
        let ch = chars[i];
        let ghost rest = chars@.skip(i as int);
        proof {
            assert(rest[0] == ch);
            assert(rest.drop_first() =~= chars@.skip(i + 1));
        }
        if ch == '\x1b' {
            in_escape = true;
        } else if in_escape {
            if ch == 'm' {
                in_escape = false;
            }
        } else {
            let ghost before = result@;
            push_char(&mut result, ch);
            proof {
                assert(result@ + strip_ansi_from(chars@.skip(i + 1), false) =~= before + (seq![ch]
                    + strip_ansi_from(chars@.skip(i + 1), false)));
            }
        }
        i += 1;
    }
    proof {
        assert(chars@.skip(i as int) =~= Seq::<char>::empty());
        assert(result@ + Seq::<char>::empty() =~= result@);
    }
    result
}

/// Stripping leaves no escape character behind.
pub proof fn lemma_strip_ansi_clean(chars: Seq<char>, in_escape: bool)
    ensures
        !strip_ansi_from(chars, in_escape).contains('\x1b'),
    decreases chars.len(),
{
    if chars.len() > 0 {
        let c = chars[0];
        let rest = chars.drop_first();
        lemma_strip_ansi_clean(rest, true);
        lemma_strip_ansi_clean(rest, c != 'm');
        lemma_strip_ansi_clean(rest, false);
        if c != '\x1b' && !in_escape {
            let tail = strip_ansi_from(rest, false);
            assert(strip_ansi_from(chars, in_escape) == seq![c] + tail);
            if (seq![c] + tail).contains('\x1b') {
                let i = choose|i: int| 0 <= i < (seq![c] + tail).len() && (seq![c] + tail)[i] == '\x1b';
                if i > 0 {
                    assert(tail[i - 1] == '\x1b');
                }
            }
        }
    }
}

/// Text without escapes strips to itself.
pub proof fn lemma_strip_ansi_plain(chars: Seq<char>)
    requires
        !chars.contains('\x1b'),
    ensures
        strip_ansi_from(chars, false) == chars,
    decreases chars.len(),
{
    if chars.len() > 0 {
        let rest = chars.drop_first();
        assert(chars[0] != '\x1b') by {
            if chars[0] == '\x1b' {
                assert(chars.contains('\x1b'));
            }
        }
        assert(!rest.contains('\x1b')) by {
            if rest.contains('\x1b') {
                let i = choose|i: int| 0 <= i < rest.len() && rest[i] == '\x1b';
                assert(chars[i + 1] == '\x1b');
            }
        }
        lemma_strip_ansi_plain(rest);
        assert(seq![chars[0]] + rest =~= chars);
    } else {
        assert(strip_ansi_from(chars, false) =~= chars);
    }
}

/// Stripping twice is stripping once: `strip_ansi` is idempotent, and what
/// it returns holds no escape.
pub proof fn lemma_strip_ansi_idempotent(chars: Seq<char>)
    ensures
        !strip_ansi_from(chars, false).contains('\x1b'),
        strip_ansi_from(strip_ansi_from(chars, false), false) == strip_ansi_from(chars, false),
{
    lemma_strip_ansi_clean(chars, false);
    lemma_strip_ansi_plain(strip_ansi_from(chars, false));
}

/// The GumTree-style display string of a node: `kind [start,end]`, or
/// `kind: label [start,end]` when the label is not empty.
pub open spec fn node_display(node: Node) -> Seq<char> {
    let span = " ["@ + decimal_spec(node.start_byte as nat) + ","@ + decimal_spec(node.end_byte as nat)
        + "]"@;
    if node.label@.len() == 0 {
        node.kind@ + span
    } else {
        node.kind@ + ": "@ + node.label@ + span
    }
}

/// Returns the GumTree-style display string for a node.
pub fn format_node(node: &Node) -> (r: String)
    ensures
        r@ == node_display(*node),
{
    proof {
        reveal_strlit(" [");
        reveal_strlit(",");
        reveal_strlit("]");
        reveal_strlit(": ");
    }
    let mut out = String::from_str(node.kind.as_str());
    if !node.label.as_str().is_empty() {
        out.append(": ");
        out.append(node.label.as_str());
    }
    let ghost head = out@;
    out.append(" [");
    push_decimal(&mut out, node.start_byte as u64);
    out.append(",");
    push_decimal(&mut out, node.end_byte as u64);
    out.append("]");
    proof {
        let span = " ["@ + decimal_spec(node.start_byte as nat) + ","@ + decimal_spec(node.end_byte as nat)
            + "]"@;
        assert(out@ =~= head + span);
        if node.label@.len() == 0 {
            assert(head == node.kind@);
        } else {
            assert(head =~= node.kind@ + ": "@ + node.label@);
        }
    }
    out
}

} // verus!

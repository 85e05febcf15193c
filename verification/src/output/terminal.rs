//! Side-by-side colored terminal output.
//!
//! Colors are applied per AST span, not per line:
//!
//! * **Cyan** line numbers: the line belongs to a moved block.
//! * **Red** spans on the left: deleted tokens.
//! * **Green** spans on the right: inserted tokens.
//! * **Yellow** spans on both sides: updated (label-changed) tokens.
//! * Default: unchanged tokens and inter-token whitespace.
//! * `•`: filler for absent lines with no counterpart on the other side.

use std::collections::{HashMap, HashSet};
use vstd::prelude::*;
use vstd::string::{StrSliceExecFns, StringExecFns, StringSliceAdditionalSpecFns};

use crate::actions::Action;
use crate::tree::{Node, Tree};

use super::line_pairing::{
    build_line_pairing, line_is, moved_line, pairing_from_votes, pairing_ok, split_into_lines, text_lines,
    FileLine,
};
use super::paint::{
    plain_or_styled,
    bold_dimmed_text, char_columns, terminal_columns, char_width, code_ok, cyan_text, dimmed_text, escape_state_after, green_text,
    lemma_shows_concat, lemma_shows_painted, lemma_shows_plain, lemma_strip_concat, no_escape, red_text,
    shows, yellow_text,
};
use super::{strip_ansi_from, DiffFormatter, FormatInput};
use crate::decimal::{decimal_spec, digit_char, push_decimal};
use crate::mapping::Mapping;
use crate::text::{chars_of, decode_lossy, lossy_text, push_char};

verus! {

broadcast use vstd::std_specs::hash::group_hash_axioms;

/// How a stretch of text is colored.
#[derive(Debug, Clone, Copy, PartialEq, Eq, Structural)]
pub enum SpanColor {
    Unchanged,
    Updated,
    Deleted,
    Inserted,
}

/// A piece of a line together with its color.
#[derive(Debug, Clone, Copy)]
pub struct ColoredSpan<'a> {
    pub text: &'a str,
    pub color: SpanColor,
}

// ---------------------------------------------------------------------------
// Leaf classification
// ---------------------------------------------------------------------------

/// The action updates node `id`.
pub open spec fn updates(a: Action, id: usize) -> bool {
    a matches Action::Update { node, .. } && node == id
}

/// Some action of the script updates node `id`.
pub open spec fn is_updated_node(actions: Seq<Action>, id: usize) -> bool {
    exists|i: int| 0 <= i < actions.len() && #[trigger] updates(actions[i], id)
}

/// Law: a node counts as updated exactly when an `Update` action of the
/// script names it: moves, inserts and deletes never make a node count as
/// updated, and a script without an `Update` updates no node.
pub proof fn lemma_updated_only_by_update(actions: Seq<Action>)
    ensures
        forall|id: usize|
            #[trigger] is_updated_node(actions, id) <==> exists|i: int|
                0 <= i < actions.len() && (#[trigger] actions[i] matches Action::Update { node, .. } && node == id),
        (forall|i: int| 0 <= i < actions.len() ==> !(#[trigger] actions[i] is Update)) ==> forall|id: usize|
            !#[trigger] is_updated_node(actions, id),
{
    assert forall|id: usize|
        #[trigger] is_updated_node(actions, id) <==> exists|i: int|
            0 <= i < actions.len() && (#[trigger] actions[i] matches Action::Update { node, .. } && node == id) by {
        if is_updated_node(actions, id) {
            let i = choose|i: int| 0 <= i < actions.len() && #[trigger] updates(actions[i], id);
            assert(actions[i] matches Action::Update { node, .. } && node == id);
        }
        if exists|i: int| 0 <= i < actions.len() && (#[trigger] actions[i] matches Action::Update { node, .. } && node == id) {
            let i = choose|i: int| 0 <= i < actions.len() && (#[trigger] actions[i] matches Action::Update { node, .. } && node == id);
            assert(updates(actions[i], id));
        }
    }
    if forall|i: int| 0 <= i < actions.len() ==> !(#[trigger] actions[i] is Update) {
        assert forall|id: usize| !#[trigger] is_updated_node(actions, id) by {
            if is_updated_node(actions, id) {
                let i = choose|i: int| 0 <= i < actions.len() && #[trigger] updates(actions[i], id);
                assert(actions[i] is Update);
            }
        }
    }
}

/// Source nodes targeted by an `Update` action.
pub fn updated_nodes(actions: &[Action]) -> (r: HashSet<usize>)
    ensures
        forall|id: usize| #[trigger] r@.contains(id) <==> is_updated_node(actions@, id),
        forall|id: usize|
            #[trigger] r@.contains(id) <==> exists|i: int|
                0 <= i < actions@.len() && (#[trigger] actions@[i] matches Action::Update { node, .. } && node == id),
        (forall|i: int| 0 <= i < actions@.len() ==> !(#[trigger] actions@[i] is Update)) ==> r@.is_empty(),
{
    let mut r: HashSet<usize> = HashSet::new();
    let mut i: usize = 0;
    while i < actions.len()
        invariant
            i <= actions@.len(),
            forall|id: usize|
                #[trigger] r@.contains(id) <==> exists|j: int| 0 <= j < i && #[trigger] updates(actions@[j], id),
        decreases actions@.len() - i,
    {
        let ghost before = r@;
        match &actions[i] {
            Action::Update { node, .. } => {
                r.insert(*node);
            },
            _ => {},
        }
        proof {
            assert forall|id: usize|
                #[trigger] r@.contains(id) <==> exists|j: int| 0 <= j < i + 1 && #[trigger] updates(actions@[j], id) by {
                if updates(actions@[i as int], id) {
                    assert(exists|j: int| 0 <= j < i + 1 && #[trigger] updates(actions@[j], id));
                }
                if exists|j: int| 0 <= j < i + 1 && #[trigger] updates(actions@[j], id) {
                    let j = choose|j: int| 0 <= j < i + 1 && #[trigger] updates(actions@[j], id);
                    if j < i {
                        assert(before.contains(id));
                    }
                }
                if before.contains(id) {
                    let j = choose|j: int| 0 <= j < i && #[trigger] updates(actions@[j], id);
                    assert(0 <= j < i + 1 && updates(actions@[j], id));
                }
            }
        }
        i += 1;
    }
    proof {
        lemma_updated_only_by_update(actions@);
        assert forall|id: usize|
            #[trigger] r@.contains(id) <==> exists|i: int|
                0 <= i < actions@.len() && (#[trigger] actions@[i] matches Action::Update { node, .. } && node == id) by {
            assert(r@.contains(id) <==> is_updated_node(actions@, id));
        }
        if forall|i: int| 0 <= i < actions@.len() ==> !(#[trigger] actions@[i] is Update) {
            assert(r@ =~= Set::<usize>::empty());
        }
    }
    r
}

/// The color of node `i` of an arena: leaves are `unmapped_color` when
/// unmapped, `Updated` when updated, `Unchanged` otherwise; inner nodes
/// have none.
pub open spec fn leaf_color(
    nodes: Seq<Node>,
    i: int,
    unmapped: bool,
    updated: bool,
    unmapped_color: SpanColor,
) -> Option<SpanColor> {
    if nodes[i].children@.len() == 0 {
        Some(
            if unmapped {
                unmapped_color
            } else if updated {
                SpanColor::Updated
            } else {
                SpanColor::Unchanged
            },
        )
    } else {
        None
    }
}

/// Colors every leaf of `tree`: `unmapped_color` when `is_unmapped`,
/// `Updated` when `is_updated`, `Unchanged` otherwise. The two flag lists,
/// indexed by node, encode the only source/destination asymmetry (which
/// side of the mapping to consult).
pub fn classify_leaves(
    tree: &Tree,
    is_unmapped: &[bool],
    is_updated: &[bool],
    unmapped_color: SpanColor,
) -> (r: Vec<Option<SpanColor>>)
    requires
        is_unmapped@.len() == tree.arena().len(),
        is_updated@.len() == tree.arena().len(),
    ensures
        r@.len() == tree.arena().len(),
        forall|i: int|
            0 <= i < r@.len() ==> #[trigger] r@[i] == leaf_color(
                tree.arena(),
                i,
                is_unmapped@[i],
                is_updated@[i],
                unmapped_color,
            ),
{
    let nodes = tree.all_nodes();
    let mut r: Vec<Option<SpanColor>> = Vec::new();
    let mut i: usize = 0;
    while i < nodes.len()
        invariant
            nodes@ == tree.arena(),
            i <= nodes@.len(),
            is_unmapped@.len() == nodes@.len(),
            is_updated@.len() == nodes@.len(),
            r@.len() == i,
            forall|k: int|
                0 <= k < i ==> #[trigger] r@[k] == leaf_color(
                    nodes@,
                    k,
                    is_unmapped@[k],
                    is_updated@[k],
                    unmapped_color,
                ),
        decreases nodes@.len() - i,
    {
        let color = if nodes[i].children.len() == 0 {
            Some(
                if is_unmapped[i] {
                    unmapped_color
                } else if is_updated[i] {
                    SpanColor::Updated
                } else {
                    SpanColor::Unchanged
                },
            )
        } else {
            None
        };
        r.push(color);
        i += 1;
    }
    r
}

// ---------------------------------------------------------------------------
// Line spans
// ---------------------------------------------------------------------------

/// A stretch of a line: start byte, end byte, color.
pub type ByteSpan = (usize, usize, SpanColor);

/// The stretch of the line starting at byte `line_start` and holding
/// `len` bytes that a leaf covers, clipped to the line.
pub open spec fn leaf_span(node: Node, line_start: int, len: int, color: SpanColor) -> ByteSpan {
    let start: int = if node.start_byte >= line_start {
        node.start_byte - line_start
    } else {
        0
    };
    let rel_end: int = node.end_byte - line_start;
    let end: int = if rel_end <= len {
        rel_end
    } else {
        len
    };
    ((if start <= end { start } else { end }) as usize, end as usize, color)
}

/// The leaf carries a color and overlaps the line spanning bytes
/// `line_start..line_end`.
pub open spec fn leaf_on_line(node: Node, color: Option<SpanColor>, line_start: int, line_end: int) -> bool {
    &&& node.children@.len() == 0
    &&& node.end_byte > line_start
    &&& node.start_byte < line_end
    &&& color is Some
}

/// The stretches of the first `k` nodes' leaves that lie on the line, in
/// arena order.
pub open spec fn line_leaf_spans(
    nodes: Seq<Node>,
    colors: Seq<Option<SpanColor>>,
    line_start: int,
    line_end: int,
    len: int,
    k: int,
) -> Seq<ByteSpan>
    decreases k,
{
    if k <= 0 {
        seq![]
    } else {
        let prev = line_leaf_spans(nodes, colors, line_start, line_end, len, k - 1);
        if leaf_on_line(nodes[k - 1], colors[k - 1], line_start, line_end) {
            prev.push(leaf_span(nodes[k - 1], line_start, len, colors[k - 1].unwrap()))
        } else {
            prev
        }
    }
}

/// Where a stable insertion puts `x` into `s`: after the last element that
/// does not start later than `x`.
pub open spec fn insertion_point(s: Seq<ByteSpan>, x: ByteSpan) -> int
    decreases s.len(),
{
    if s.len() == 0 || s.last().0 <= x.0 {
        s.len() as int
    } else {
        insertion_point(s.drop_last(), x)
    }
}

/// `s` with `x` inserted at its stable place.
pub open spec fn insert_by_start(s: Seq<ByteSpan>, x: ByteSpan) -> Seq<ByteSpan> {
    s.insert(insertion_point(s, x), x)
}

/// `s` sorted by start, keeping the order of spans that start together
/// (what a stable sort by start produces).
pub open spec fn sort_by_start(s: Seq<ByteSpan>) -> Seq<ByteSpan>
    decreases s.len(),
{
    if s.len() == 0 {
        s
    } else {
        insert_by_start(sort_by_start(s.drop_last()), s.last())
    }
}

proof fn lemma_insertion_point_bounds(s: Seq<ByteSpan>, x: ByteSpan)
    ensures
        0 <= insertion_point(s, x) <= s.len(),
    decreases s.len(),
{
    if s.len() > 0 && s.last().0 > x.0 {
        lemma_insertion_point_bounds(s.drop_last(), x);
    }
}

/// Inserts `x` into `s` at its stable place.
fn insert_span(s: &mut Vec<ByteSpan>, x: ByteSpan)
    ensures
        final(s)@ == insert_by_start(old(s)@, x),
{
    let mut j: usize = s.len();
    proof {
        assert(s@.take(j as int) =~= s@);
    }
    while j > 0 && s[j - 1].0 > x.0
        invariant
            j <= s@.len(),
            s@ == old(s)@,
            insertion_point(s@, x) == insertion_point(s@.take(j as int), x),
        decreases j,
    {
        proof {
            assert(s@.take(j as int).drop_last() =~= s@.take(j - 1));
        }
        j -= 1;
    }
    proof {
        if j > 0 {
            assert(s@.take(j as int).last() == s@[j - 1]);
        }
        assert(insertion_point(s@.take(j as int), x) == j);
    }
    s.insert(j, x);
}

/// Sorts stretches by start, stably.
fn sort_spans(spans: &Vec<ByteSpan>) -> (r: Vec<ByteSpan>)
    ensures
        r@ == sort_by_start(spans@),
{
    let mut r: Vec<ByteSpan> = Vec::new();
    let mut i: usize = 0;
    while i < spans.len()
        invariant
            i <= spans@.len(),
            r@ == sort_by_start(spans@.take(i as int)),
        decreases spans@.len() - i,
    {
        proof {
            assert(spans@.take(i + 1).drop_last() =~= spans@.take(i as int));
            assert(spans@.take(i + 1).last() == spans@[i as int]);
        }
        insert_span(&mut r, spans[i]);
        i += 1;
    }
    proof {
        assert(spans@.take(i as int) =~= spans@);
    }
    r
}

/// The bytes from `a` to `b` of a text, when both fall on character
/// boundaries; none otherwise.
pub open spec fn byte_slice(bytes: Seq<u8>, a: int, b: int) -> Seq<u8> {
    if a <= b <= bytes.len() && vstd::utf8::is_char_boundary(bytes, b) && vstd::utf8::is_char_boundary(
        bytes.subrange(0, b),
        a,
    ) {
        bytes.subrange(a, b)
    } else {
        seq![]
    }
}

/// The text of `text` from byte `a` to byte `b` (`&text[a..b]`), or the
/// empty text where that slice would not fall on character boundaries.
fn slice_text<'a>(text: &'a str, a: usize, b: usize) -> (r: &'a str)
    ensures
        r.spec_bytes() == byte_slice(text.spec_bytes(), a as int, b as int),
{
    proof {
        vstd::utf8::encode_utf8_valid_utf8(text@);
    }
    if a <= b && text.is_char_boundary(b) {
        let (head, _) = text.split_at(b);
        if head.is_char_boundary(a) {
            let (_, piece) = head.split_at(a);
            proof {
                assert(piece.spec_bytes() =~= text.spec_bytes().subrange(a as int, b as int));
            }
            return piece;
        }
    }
    proof {
        assert(vstd::utf8::is_char_boundary(text.spec_bytes(), 0));
    }
    let (empty, _) = text.split_at(0);
    proof {
        assert(empty.spec_bytes() =~= Seq::<u8>::empty());
        if a <= b && vstd::utf8::is_char_boundary(text.spec_bytes(), b as int) {
            assert(b <= text.spec_bytes().len()) by {
                if b > text.spec_bytes().len() {
                    assert(!vstd::utf8::is_char_boundary(text.spec_bytes(), b as int));
                }
            }
        }
    }
    empty
}

/// The colored stretches of a line: the leaves' stretches in start order,
/// with the text between and after them unchanged. A stretch that starts
/// before the previous one ended repeats its text, as the leaves dictate.
pub open spec fn assemble(spans: Seq<ByteSpan>, position: int, len: int) -> Seq<ByteSpan>
    decreases spans.len(),
{
    if spans.len() == 0 {
        if position < len {
            seq![(position as usize, len as usize, SpanColor::Unchanged)]
        } else {
            seq![]
        }
    } else {
        let (start, end, color) = spans[0];
        let gap: Seq<ByteSpan> = if start > position {
            seq![(position as usize, start, SpanColor::Unchanged)]
        } else {
            seq![]
        };
        let own: Seq<ByteSpan> = if end > start {
            seq![(start, end, color)]
        } else {
            seq![]
        };
        gap + own + assemble(spans.drop_first(), end as int, len)
    }
}

/// The spans a line is drawn with: each stretch of the line as text with
/// its color.
pub open spec fn spans_are(spans: Seq<ColoredSpan>, text: Seq<u8>, stretches: Seq<ByteSpan>) -> bool {
    &&& spans.len() == stretches.len()
    &&& forall|k: int|
        0 <= k < spans.len() ==> {
            &&& (#[trigger] spans[k]).color == stretches[k].2
            &&& spans[k].text.spec_bytes() == byte_slice(text, stretches[k].0 as int, stretches[k].1 as int)
        }
}

/// What a changed line is drawn with: its leaves' colors over its text,
/// for a line spanning bytes `line_start..line_end` and holding `len` bytes.
pub open spec fn line_stretches(
    nodes: Seq<Node>,
    colors: Seq<Option<SpanColor>>,
    line_start: int,
    line_end: int,
    len: int,
) -> Seq<ByteSpan> {
    assemble(sort_by_start(line_leaf_spans(nodes, colors, line_start, line_end, len, nodes.len() as int)), 0, len)
}

/// Splits one line into colored spans following the leaves of `tree` that
/// overlap it.
pub fn build_line_spans<'a>(line: &FileLine<'a>, tree: &Tree, leaf_colors: &Vec<Option<SpanColor>>) -> (r: Vec<
    ColoredSpan<'a>,
>)
    requires
        leaf_colors@.len() == tree.arena().len(),
    ensures
        spans_are(
            r@,
            line.text.spec_bytes(),
            line_stretches(
                tree.arena(),
                leaf_colors@,
                line.start_byte as int,
                line.end_byte as int,
                line.text.len() as int,
            ),
        ),
{
    let nodes = tree.all_nodes();
    let text_len = line.text.len();
    let mut node_spans: Vec<ByteSpan> = Vec::new();
    let mut i: usize = 0;
    while i < nodes.len()
        invariant
            nodes@ == tree.arena(),
            leaf_colors@.len() == nodes@.len(),
            text_len == line.text.len(),
            i <= nodes@.len(),
            node_spans@ == line_leaf_spans(
                nodes@,
                leaf_colors@,
                line.start_byte as int,
                line.end_byte as int,
                text_len as int,
                i as int,
            ),
        decreases nodes@.len() - i,
    {
        let node = &nodes[i];
        if node.children.len() == 0 && node.end_byte > line.start_byte && node.start_byte < line.end_byte {
            if let Some(color) = leaf_colors[i] {
                let start = if node.start_byte >= line.start_byte {
                    node.start_byte - line.start_byte
                } else {
                    0
                };
                let rel_end = node.end_byte - line.start_byte;
                let end = if rel_end <= text_len {
                    rel_end
                } else {
                    text_len
                };
                node_spans.push((if start <= end { start } else { end }, end, color));
            }
        }
        i += 1;
    }
    let node_spans = sort_spans(&node_spans);

    let ghost stretches = assemble(node_spans@, 0, text_len as int);
    let mut spans: Vec<ColoredSpan> = Vec::new();
    let mut position: usize = 0;
    let mut k: usize = 0;
    proof {
        assert(node_spans@.skip(0) =~= node_spans@);
    }
    while k < node_spans.len()
        invariant
            k <= node_spans@.len(),
            text_len == line.text.len(),
            spans_are(spans@, line.text.spec_bytes(), stretches.take(spans@.len() as int)),
            stretches == stretches.take(spans@.len() as int) + assemble(
                node_spans@.skip(k as int),
                position as int,
                text_len as int,
            ),
        decreases node_spans@.len() - k,
    {
        let (start, end, color) = node_spans[k];
        let ghost before = spans@;
        let ghost rest = node_spans@.skip(k as int);
        proof {
            assert(rest[0] == node_spans@[k as int]);
            assert(rest.drop_first() =~= node_spans@.skip(k + 1));
        }
        if start > position {
            spans.push(ColoredSpan { text: slice_text(line.text, position, start), color: SpanColor::Unchanged });
        }
        if end > start {
            spans.push(ColoredSpan { text: slice_text(line.text, start, end), color });
        }
        proof {
            let gap: Seq<ByteSpan> = if start > position {
                seq![(position, start, SpanColor::Unchanged)]
            } else {
                seq![]
            };
            let own: Seq<ByteSpan> = if end > start {
                seq![(start, end, color)]
            } else {
                seq![]
            };
            let tail = assemble(node_spans@.skip(k + 1), end as int, text_len as int);
            assert(assemble(rest, position as int, text_len as int) == gap + own + tail);
            let done = stretches.take(before.len() as int);
            assert(stretches == done + gap + own + tail) by {
                assert(done + (gap + own + tail) =~= done + gap + own + tail);
            }
            assert(stretches.take(spans@.len() as int) =~= done + gap + own) by {
                assert((done + gap + own + tail).take(spans@.len() as int) =~= done + gap + own);
            }
            assert(stretches == stretches.take(spans@.len() as int) + tail) by {
                assert(done + gap + own + tail =~= (done + gap + own) + tail);
            }
            assert forall|j: int| 0 <= j < spans@.len() implies {
                &&& (#[trigger] spans@[j]).color == stretches.take(spans@.len() as int)[j].2
                &&& spans@[j].text.spec_bytes() == byte_slice(
                    line.text.spec_bytes(),
                    stretches.take(spans@.len() as int)[j].0 as int,
                    stretches.take(spans@.len() as int)[j].1 as int,
                )
            } by {
                if j < before.len() {
                    assert(spans@[j] == before[j]);
                    assert(stretches.take(spans@.len() as int)[j] == stretches.take(before.len() as int)[j]);
                }
            }
        }
        position = end;
        k += 1;
    }
    let ghost before = spans@;
    proof {
        assert(node_spans@.skip(k as int) =~= Seq::<ByteSpan>::empty());
    }
    if position < text_len {
        spans.push(ColoredSpan { text: slice_text(line.text, position, text_len), color: SpanColor::Unchanged });
    }
    proof {
        let last: Seq<ByteSpan> = if position < text_len {
            seq![(position, text_len, SpanColor::Unchanged)]
        } else {
            seq![]
        };
        let done = stretches.take(before.len() as int);
        assert(stretches == done + last);
        assert(stretches.len() == spans@.len());
        assert(stretches.take(spans@.len() as int) =~= stretches);
        assert forall|j: int| 0 <= j < spans@.len() implies {
            &&& (#[trigger] spans@[j]).color == stretches[j].2
            &&& spans@[j].text.spec_bytes() == byte_slice(
                line.text.spec_bytes(),
                stretches[j].0 as int,
                stretches[j].1 as int,
            )
        } by {
            if j < before.len() {
                assert(spans@[j] == before[j]);
                assert(done[j] == stretches[j]);
            }
        }
    }
    spans
}


// ---------------------------------------------------------------------------
// Rows
// ---------------------------------------------------------------------------

/// One row of the side-by-side view: a source line, a destination line, or
/// a pair of them.
pub struct OutputRow<'a> {
    pub source_line_number: Option<usize>,
    pub source_spans: Vec<ColoredSpan<'a>>,
    pub destination_line_number: Option<usize>,
    pub destination_spans: Vec<ColoredSpan<'a>>,
    pub is_changed: bool,
    pub is_moved: bool,
}

impl<'a> OutputRow<'a> {
    /// Unpaired source line: entire line is deleted.
    pub fn deleted(line_index: usize, text: &'a str) -> (row: Self)
        requires
            line_index < usize::MAX,
        ensures
            row.source_line_number == Some((line_index + 1) as usize),
            row.source_spans@ == seq![ColoredSpan { text, color: SpanColor::Deleted }],
            row.destination_line_number is None,
            row.destination_spans@.len() == 0,
            row.is_changed,
            !row.is_moved,
    {
        Self {
            source_line_number: Some(line_index + 1),
            source_spans: vec![ColoredSpan { text, color: SpanColor::Deleted }],
            destination_line_number: None,
            destination_spans: Vec::new(),
            is_changed: true,
            is_moved: false,
        }
    }

    /// Unpaired destination line: entire line is inserted.
    pub fn inserted(line_index: usize, text: &'a str) -> (row: Self)
        requires
            line_index < usize::MAX,
        ensures
            row.source_line_number is None,
            row.source_spans@.len() == 0,
            row.destination_line_number == Some((line_index + 1) as usize),
            row.destination_spans@ == seq![ColoredSpan { text, color: SpanColor::Inserted }],
            row.is_changed,
            !row.is_moved,
    {
        Self {
            source_line_number: None,
            source_spans: Vec::new(),
            destination_line_number: Some(line_index + 1),
            destination_spans: vec![ColoredSpan { text, color: SpanColor::Inserted }],
            is_changed: true,
            is_moved: false,
        }
    }
}

/// The trees a diff was drawn from, with their leaves' colors.
pub struct DiffContext<'a> {
    pub source_tree: &'a Tree,
    pub destination_tree: &'a Tree,
    pub source_leaf_colors: &'a Vec<Option<SpanColor>>,
    pub destination_leaf_colors: &'a Vec<Option<SpanColor>>,
}

/// What a row shows: a deleted source line, an inserted destination line,
/// or a source line paired with a destination line.
pub enum RowShape {
    Deleted(usize),
    Inserted(usize),
    Paired(usize, usize),
}

/// Some destination line is paired with source line `s`.
pub open spec fn paired_source(m: Map<usize, usize>, s: usize) -> bool {
    exists|d: usize| #[trigger] m.contains_key(d) && m[d] == s
}

/// The deletions for the source lines in `from..to` that no destination
/// line pairs with and that were not drawn yet.
pub open spec fn skipped(m: Map<usize, usize>, emitted: Set<usize>, from: int, to: int) -> Seq<RowShape>
    decreases to - from,
{
    if from >= to {
        seq![]
    } else {
        let prev = skipped(m, emitted, from, to - 1);
        let g = (to - 1) as usize;
        if !paired_source(m, g) && !emitted.contains(g) {
            prev.push(RowShape::Deleted(g))
        } else {
            prev
        }
    }
}

/// The source lines in `from..to` that no destination line pairs with.
pub open spec fn unpaired_in(m: Map<usize, usize>, from: int, to: int) -> Set<usize> {
    Set::new(|g: usize| from <= g < to && !paired_source(m, g))
}

/// The rows for the first `k` destination lines, the source lines drawn so
/// far, and the last paired source line. Each destination line draws the
/// unpaired source lines between the previous paired source line and its
/// own (when its own comes later), then itself.
pub open spec fn rows_state(m: Map<usize, usize>, k: int) -> (Seq<RowShape>, Set<usize>, Option<usize>)
    decreases k,
{
    if k <= 0 {
        (seq![], Set::empty(), None)
    } else {
        let (shapes, emitted, last) = rows_state(m, k - 1);
        let d = (k - 1) as usize;
        if !m.contains_key(d) {
            (shapes.push(RowShape::Inserted(d)), emitted, last)
        } else {
            let s = m[d];
            let gap_start: int = match last {
                Some(l) => l + 1,
                None => 0,
            };
            let gap = if s >= gap_start {
                skipped(m, emitted, gap_start, s as int)
            } else {
                seq![]
            };
            let drawn = if s >= gap_start {
                emitted.union(unpaired_in(m, gap_start, s as int))
            } else {
                emitted
            };
            (shapes + gap.push(RowShape::Paired(s, d)), drawn.insert(s), Some(s))
        }
    }
}

/// The rows of the view, in order: the destination lines with the source
/// lines they pass, then every source line still undrawn and unpaired.
pub open spec fn row_shapes(m: Map<usize, usize>, src_count: nat, dst_count: nat) -> Seq<RowShape> {
    let (shapes, emitted, _) = rows_state(m, dst_count as int);
    shapes + skipped(m, emitted, 0, src_count as int)
}

/// `row` draws `shape`.
pub open spec fn row_is(
    row: OutputRow,
    shape: RowShape,
    src: Seq<FileLine>,
    dst: Seq<FileLine>,
    moved: Set<usize>,
    context: DiffContext,
) -> bool {
    match shape {
        RowShape::Deleted(s) => {
            &&& row.source_line_number == Some((s + 1) as usize)
            &&& row.source_spans@ == seq![ColoredSpan { text: src[s as int].text, color: SpanColor::Deleted }]
            &&& row.destination_line_number is None
            &&& row.destination_spans@.len() == 0
            &&& row.is_changed
            &&& !row.is_moved
        },
        RowShape::Inserted(d) => {
            &&& row.source_line_number is None
            &&& row.source_spans@.len() == 0
            &&& row.destination_line_number == Some((d + 1) as usize)
            &&& row.destination_spans@ == seq![
                ColoredSpan { text: dst[d as int].text, color: SpanColor::Inserted },
            ]
            &&& row.is_changed
            &&& !row.is_moved
        },
        RowShape::Paired(s, d) => {
            &&& row.source_line_number == Some((s + 1) as usize)
            &&& row.destination_line_number == Some((d + 1) as usize)
            &&& row.is_changed == (src[s as int].text@ != dst[d as int].text@)
            &&& row.is_moved == moved.contains(d)
            &&& if row.is_changed {
                &&& spans_are(
                    row.source_spans@,
                    src[s as int].text.spec_bytes(),
                    line_stretches(
                        context.source_tree.arena(),
                        context.source_leaf_colors@,
                        src[s as int].start_byte as int,
                        src[s as int].end_byte as int,
                        src[s as int].text.len() as int,
                    ),
                )
                &&& spans_are(
                    row.destination_spans@,
                    dst[d as int].text.spec_bytes(),
                    line_stretches(
                        context.destination_tree.arena(),
                        context.destination_leaf_colors@,
                        dst[d as int].start_byte as int,
                        dst[d as int].end_byte as int,
                        dst[d as int].text.len() as int,
                    ),
                )
            } else {
                &&& row.source_spans@ == seq![ColoredSpan { text: src[s as int].text, color: SpanColor::Unchanged }]
                &&& row.destination_spans@ == seq![
                    ColoredSpan { text: dst[d as int].text, color: SpanColor::Unchanged },
                ]
            }
        },
    }
}

/// Row `k` of `rows` draws shape `k` of `shapes`, for every `k`.
pub open spec fn rows_are(
    rows: Seq<OutputRow>,
    shapes: Seq<RowShape>,
    src: Seq<FileLine>,
    dst: Seq<FileLine>,
    moved: Set<usize>,
    context: DiffContext,
) -> bool {
    &&& rows.len() == shapes.len()
    &&& forall|k: int| 0 <= k < rows.len() ==> #[trigger] row_is(rows[k], shapes[k], src, dst, moved, context)
}

/// The context's colors cover its trees.
pub open spec fn context_ok(context: DiffContext) -> bool {
    &&& context.source_leaf_colors@.len() == context.source_tree.arena().len()
    &&& context.destination_leaf_colors@.len() == context.destination_tree.arena().len()
}

/// Draws the source lines in `from..to` that are unpaired and undrawn.
fn push_skipped<'a>(
    rows: &mut Vec<OutputRow<'a>>,
    emitted: &mut Vec<bool>,
    paired: &Vec<bool>,
    source_lines: &[FileLine<'a>],
    from: usize,
    to: usize,
    Ghost(m): Ghost<Map<usize, usize>>,
    Ghost(drawn): Ghost<Set<usize>>,
    Ghost(src): Ghost<Seq<FileLine<'a>>>,
    Ghost(dst): Ghost<Seq<FileLine<'a>>>,
    Ghost(moved): Ghost<Set<usize>>,
    Ghost(context): Ghost<DiffContext<'a>>,
)
    requires
        from <= to <= source_lines@.len() < usize::MAX,
        src == source_lines@,
        old(emitted)@.len() == source_lines@.len(),
        paired@.len() == source_lines@.len(),
        forall|g: int| 0 <= g < paired@.len() ==> paired@[g] == paired_source(m, g as usize),
        forall|g: int| 0 <= g < old(emitted)@.len() ==> old(emitted)@[g] == drawn.contains(g as usize),
    ensures
        final(emitted)@.len() == source_lines@.len(),
        forall|g: int|
            0 <= g < final(emitted)@.len() ==> final(emitted)@[g] == drawn.union(unpaired_in(m, from as int, to as int)).contains(
                g as usize,
            ),
        final(rows)@.len() == old(rows)@.len() + skipped(m, drawn, from as int, to as int).len(),
        final(rows)@.take(old(rows)@.len() as int) == old(rows)@,
        forall|k: int|
            0 <= k < skipped(m, drawn, from as int, to as int).len() ==> #[trigger] row_is(
                final(rows)@[old(rows)@.len() + k],
                skipped(m, drawn, from as int, to as int)[k],
                src,
                dst,
                moved,
                context,
            ),
{
    let ghost rows0 = rows@;
    let mut g = from;
    while g < to
        invariant
            from <= g <= to <= source_lines@.len() < usize::MAX,
            src == source_lines@,
            emitted@.len() == source_lines@.len(),
            paired@.len() == source_lines@.len(),
            forall|x: int| 0 <= x < paired@.len() ==> paired@[x] == paired_source(m, x as usize),
            forall|x: int|
                0 <= x < emitted@.len() ==> emitted@[x] == drawn.union(unpaired_in(m, from as int, g as int)).contains(
                    x as usize,
                ),
            rows@.len() == rows0.len() + skipped(m, drawn, from as int, g as int).len(),
            rows@.take(rows0.len() as int) == rows0,
            forall|k: int|
                0 <= k < skipped(m, drawn, from as int, g as int).len() ==> #[trigger] row_is(
                    rows@[rows0.len() + k],
                    skipped(m, drawn, from as int, g as int)[k],
                    src,
                    dst,
                    moved,
                    context,
                ),
        decreases to - g,
    {
        let ghost before = rows@;
        let ghost prev = skipped(m, drawn, from as int, g as int);
        proof {
            assert(emitted@[g as int] == drawn.contains(g)) by {
                assert(!unpaired_in(m, from as int, g as int).contains(g));
            }
        }
        if !paired[g] && !emitted[g] {
            rows.push(OutputRow::deleted(g, source_lines[g].text));
            emitted.set(g, true);
            proof {
                assert(skipped(m, drawn, from as int, g + 1) == prev.push(RowShape::Deleted(g)));
                assert forall|k: int| 0 <= k < prev.len() + 1 implies #[trigger] row_is(
                    rows@[rows0.len() + k],
                    prev.push(RowShape::Deleted(g))[k],
                    src,
                    dst,
                    moved,
                    context,
                ) by {
                    if k < prev.len() {
                        assert(rows@[rows0.len() + k] == before[rows0.len() + k]);
                    }
                }
                assert(rows@.take(rows0.len() as int) =~= before.take(rows0.len() as int));
            }
        } else {
            proof {
                assert(skipped(m, drawn, from as int, g + 1) == prev);
            }
        }
        proof {
            assert forall|x: int| 0 <= x < emitted@.len() implies emitted@[x] == drawn.union(
                unpaired_in(m, from as int, g + 1),
            ).contains(x as usize) by {
                if x != g {
                    assert(unpaired_in(m, from as int, g + 1).contains(x as usize) == unpaired_in(
                        m,
                        from as int,
                        g as int,
                    ).contains(x as usize));
                }
            }
        }
        g += 1;
    }
}

/// Lays the lines out in rows: each destination line in order, preceded by
/// the unpaired source lines it passes, and the remaining unpaired source
/// lines at the end.
pub fn build_output_rows<'a>(
    source_lines: &[FileLine<'a>],
    destination_lines: &[FileLine<'a>],
    line_mapping: &HashMap<usize, usize>,
    moved_destination_lines: &HashSet<usize>,
    context: &DiffContext,
) -> (rows: Vec<OutputRow<'a>>)
    requires
        pairing_ok(line_mapping@, destination_lines@.len(), source_lines@.len()),
        source_lines@.len() < usize::MAX,
        destination_lines@.len() < usize::MAX,
        context_ok(*context),
    ensures
        rows_are(
            rows@,
            row_shapes(line_mapping@, source_lines@.len(), destination_lines@.len()),
            source_lines@,
            destination_lines@,
            moved_destination_lines@,
            *context,
        ),
{
    let ghost m = line_mapping@;
    let ghost src = source_lines@;
    let ghost dst = destination_lines@;
    let ghost moved = moved_destination_lines@;
    let n_src = source_lines.len();
    let n_dst = destination_lines.len();

    // Which source lines some destination line pairs with.
    let mut paired: Vec<bool> = Vec::new();
    while paired.len() < n_src
        invariant
            paired@.len() <= n_src,
            forall|x: int| 0 <= x < paired@.len() ==> !paired@[x],
        decreases n_src - paired@.len(),
    {
        paired.push(false);
    }
    let mut d: usize = 0;
    while d < n_dst
        invariant
            d <= n_dst == dst.len(),
            n_src == src.len(),
            m == line_mapping@,
            pairing_ok(m, dst.len(), src.len()),
            paired@.len() == n_src,
            forall|x: int|
                0 <= x < paired@.len() ==> paired@[x] == exists|e: usize|
                    e < d && #[trigger] m.contains_key(e) && m[e] == x as usize,
        decreases n_dst - d,
    {
        let ghost before = paired@;
        if let Some(s) = line_mapping.get(&d) {
            paired.set(*s, true);
        }
        proof {
            assert forall|x: int| 0 <= x < paired@.len() implies paired@[x] == exists|e: usize|
                e < d + 1 && #[trigger] m.contains_key(e) && m[e] == x as usize by {
                if before[x] {
                    let e = choose|e: usize| e < d && #[trigger] m.contains_key(e) && m[e] == x as usize;
                    assert(e < d + 1 && m.contains_key(e) && m[e] == x as usize);
                }
                if exists|e: usize| e < d + 1 && #[trigger] m.contains_key(e) && m[e] == x as usize {
                    let e = choose|e: usize| e < d + 1 && #[trigger] m.contains_key(e) && m[e] == x as usize;
                    if e < d {
                        assert(before[x]);
                    }
                }
            }
        }
        d += 1;
    }
    proof {
        assert forall|x: int| 0 <= x < paired@.len() implies paired@[x] == paired_source(m, x as usize) by {
            if paired_source(m, x as usize) {
                let e = choose|e: usize| #[trigger] m.contains_key(e) && m[e] == x as usize;
                assert(e < n_dst);
            }
        }
    }

    let mut rows: Vec<OutputRow> = Vec::new();
    let mut emitted: Vec<bool> = Vec::new();
    while emitted.len() < n_src
        invariant
            emitted@.len() <= n_src,
            forall|x: int| 0 <= x < emitted@.len() ==> !emitted@[x],
        decreases n_src - emitted@.len(),
    {
        emitted.push(false);
    }
    let mut last_source_line: Option<usize> = None;
    let mut destination_index: usize = 0;
    while destination_index < n_dst
        invariant
            destination_index <= n_dst == dst.len() < usize::MAX,
            n_src == src.len() < usize::MAX,
            src == source_lines@,
            dst == destination_lines@,
            m == line_mapping@,
            moved == moved_destination_lines@,
            pairing_ok(m, dst.len(), src.len()),
            context_ok(*context),
            paired@.len() == n_src,
            forall|x: int| 0 <= x < paired@.len() ==> paired@[x] == paired_source(m, x as usize),
            emitted@.len() == n_src,
            ({
                let (shapes, drawn, last) = rows_state(m, destination_index as int);
                &&& last == last_source_line
                &&& (last matches Some(l) ==> l < n_src)
                &&& forall|x: int| 0 <= x < emitted@.len() ==> emitted@[x] == drawn.contains(x as usize)
                &&& rows_are(rows@, shapes, src, dst, moved, *context)
            }),
        decreases n_dst - destination_index,
    {
        let ghost (shapes0, drawn0, last0) = rows_state(m, destination_index as int);
        let ghost rows_before = rows@;
        match line_mapping.get(&destination_index) {
            None => {
                rows.push(OutputRow::inserted(destination_index, destination_lines[destination_index].text));
                proof {
                    assert forall|k: int| 0 <= k < rows@.len() implies #[trigger] row_is(
                        rows@[k],
                        shapes0.push(RowShape::Inserted(destination_index))[k],
                        src,
                        dst,
                        moved,
                        *context,
                    ) by {
                        if k < rows_before.len() {
                            assert(rows@[k] == rows_before[k]);
                        }
                    }
                }
            },
            Some(s) => {
                let source_index = *s;
                let gap_start: usize = match last_source_line {
                    Some(l) => l + 1,
                    None => 0,
                };
                let ghost gap = if source_index >= gap_start {
                    skipped(m, drawn0, gap_start as int, source_index as int)
                } else {
                    seq![]
                };
                let ghost drawn1 = if source_index >= gap_start {
                    drawn0.union(unpaired_in(m, gap_start as int, source_index as int))
                } else {
                    drawn0
                };
                if source_index >= gap_start {
                    push_skipped(
                        &mut rows,
                        &mut emitted,
                        &paired,
                        source_lines,
                        gap_start,
                        source_index,
                        Ghost(m),
                        Ghost(drawn0),
                        Ghost(src),
                        Ghost(dst),
                        Ghost(moved),
                        Ghost(*context),
                    );
                }
                let ghost rows_mid = rows@;
                proof {
                    assert(rows_mid.len() == rows_before.len() + gap.len());
                    assert forall|k: int| 0 <= k < rows_mid.len() implies #[trigger] row_is(
                        rows_mid[k],
                        (shapes0 + gap)[k],
                        src,
                        dst,
                        moved,
                        *context,
                    ) by {
                        if k < rows_before.len() {
                            assert(rows_mid.take(rows_before.len() as int)[k] == rows_before[k]);
                        } else {
                            assert(row_is(rows_mid[rows_before.len() + (k - rows_before.len())], gap[k - rows_before.len()], src, dst, moved, *context));
                        }
                    }
                }
                let source_line = &source_lines[source_index];
                let destination_line = &destination_lines[destination_index];
                let is_changed = !crate::text::same_text(source_line.text, destination_line.text);
                let is_moved = moved_destination_lines.contains(&destination_index);
                let (source_spans, destination_spans) = if is_changed {
                    (
                        build_line_spans(source_line, context.source_tree, context.source_leaf_colors),
                        build_line_spans(destination_line, context.destination_tree, context.destination_leaf_colors),
                    )
                } else {
                    (
                        vec![ColoredSpan { text: source_line.text, color: SpanColor::Unchanged }],
                        vec![ColoredSpan { text: destination_line.text, color: SpanColor::Unchanged }],
                    )
                };
                rows.push(
                    OutputRow {
                        source_line_number: Some(source_index + 1),
                        source_spans,
                        destination_line_number: Some(destination_index + 1),
                        destination_spans,
                        is_changed,
                        is_moved,
                    },
                );
                emitted.set(source_index, true);
                last_source_line = Some(source_index);
                proof {
                    let shapes1 = shapes0 + gap.push(RowShape::Paired(source_index, destination_index));
                    assert(shapes1 =~= (shapes0 + gap).push(RowShape::Paired(source_index, destination_index)));
                    assert forall|k: int| 0 <= k < rows@.len() implies #[trigger] row_is(
                        rows@[k],
                        shapes1[k],
                        src,
                        dst,
                        moved,
                        *context,
                    ) by {
                        if k < rows_mid.len() {
                            assert(rows@[k] == rows_mid[k]);
                            assert(shapes1[k] == (shapes0 + gap)[k]);
                        } else {
                            let row = rows@[k];
                            assert(shapes1[k] == RowShape::Paired(source_index, destination_index));
                            assert(*source_line == src[source_index as int]);
                            assert(*destination_line == dst[destination_index as int]);
                            assert(row.source_line_number == Some((source_index + 1) as usize));
                            assert(row.destination_line_number == Some((destination_index + 1) as usize));
                            assert(row.is_changed == (src[source_index as int].text@ != dst[destination_index as int].text@));
                            assert(row.is_moved == moved.contains(destination_index));
                            if row.is_changed {
                                assert(spans_are(
                                    row.source_spans@,
                                    src[source_index as int].text.spec_bytes(),
                                    line_stretches(
                                        context.source_tree.arena(),
                                        context.source_leaf_colors@,
                                        src[source_index as int].start_byte as int,
                                        src[source_index as int].end_byte as int,
                                        src[source_index as int].text.len() as int,
                                    ),
                                ));
                            } else {
                                assert(row.source_spans@ == seq![ColoredSpan { text: src[source_index as int].text, color: SpanColor::Unchanged }]);
                                assert(row.destination_spans@ == seq![ColoredSpan { text: dst[destination_index as int].text, color: SpanColor::Unchanged }]);
                            }
                        }
                    }
                    assert forall|x: int| 0 <= x < emitted@.len() implies emitted@[x] == drawn1.insert(
                        source_index,
                    ).contains(x as usize) by {}
                }
            },
        }
        destination_index += 1;
    }

    let ghost (shapes_d, drawn_d, last_d) = rows_state(m, n_dst as int);
    push_skipped(
        &mut rows,
        &mut emitted,
        &paired,
        source_lines,
        0,
        n_src,
        Ghost(m),
        Ghost(drawn_d),
        Ghost(src),
        Ghost(dst),
        Ghost(moved),
        Ghost(*context),
    );
    proof {
        let tail = skipped(m, drawn_d, 0, n_src as int);
        assert forall|k: int| 0 <= k < rows@.len() implies #[trigger] row_is(
            rows@[k],
            (shapes_d + tail)[k],
            src,
            dst,
            moved,
            *context,
        ) by {
            if k < shapes_d.len() {
                assert(rows@.take(shapes_d.len() as int)[k] == rows@[k]);
            } else {
                assert(row_is(rows@[shapes_d.len() + (k - shapes_d.len())], tail[k - shapes_d.len()], src, dst, moved, *context));
            }
        }
    }
    rows
}


// ---------------------------------------------------------------------------
// Hunks
// ---------------------------------------------------------------------------

/// The hunks for the first `k` rows, given which rows changed: each
/// changed row opens the range of rows within `context` of it, merged into
/// the previous range when they touch.
pub open spec fn hunks_upto(changed: Seq<bool>, context: int, k: int) -> Seq<(usize, usize)>
    decreases k,
{
    if k <= 0 {
        seq![]
    } else {
        let prev = hunks_upto(changed, context, k - 1);
        let i = k - 1;
        if !changed[i] {
            prev
        } else {
            let start: int = if i >= context {
                i - context
            } else {
                0
            };
            let end: int = if i + context + 1 <= changed.len() {
                i + context + 1
            } else {
                changed.len() as int
            };
            if prev.len() > 0 && start <= prev.last().1 {
                prev.update(prev.len() - 1, (prev.last().0, end as usize))
            } else {
                prev.push((start as usize, end as usize))
            }
        }
    }
}

/// Which rows changed.
pub open spec fn changed_rows(rows: Seq<OutputRow>) -> Seq<bool> {
    rows.map_values(|r: OutputRow| r.is_changed)
}

/// Groups changed rows, with `context` rows around each, into ranges of
/// rows to show.
pub fn extract_hunks(rows: &[OutputRow], context: usize) -> (r: Vec<(usize, usize)>)
    ensures
        r@ == hunks_upto(changed_rows(rows@), context as int, rows@.len() as int),
{
    let ghost changed = changed_rows(rows@);
    let mut ranges: Vec<(usize, usize)> = Vec::new();
    let mut i: usize = 0;
    while i < rows.len()
        invariant
            i <= rows@.len(),
            changed == changed_rows(rows@),
            ranges@ == hunks_upto(changed, context as int, i as int),
        decreases rows@.len() - i,
    {
        proof {
            assert(changed[i as int] == rows@[i as int].is_changed);
        }
        if rows[i].is_changed {
            let start = if i >= context {
                i - context
            } else {
                0
            };
            let end = if context < rows.len() - i {
                i + context + 1
            } else {
                rows.len()
            };
            let n = ranges.len();
            if n > 0 && start <= ranges[n - 1].1 {
                let first = ranges[n - 1].0;
                ranges.set(n - 1, (first, end));
            } else {
                ranges.push((start, end));
            }
        }
        i += 1;
    }
    ranges
}

// ---------------------------------------------------------------------------
// Widths and wrapping
// ---------------------------------------------------------------------------

/// The columns a character takes, a control character taking none.
pub open spec fn columns_of(c: char) -> int {
    match char_width(c) {
        Some(n) => n as int,
        None => 0,
    }
}

/// The columns a text takes.
pub open spec fn text_columns(t: Seq<char>) -> int
    decreases t.len(),
{
    if t.len() == 0 {
        0
    } else {
        text_columns(t.drop_last()) + columns_of(t.last())
    }
}

/// The longest prefix of `t` that fits in `max` columns: its length in
/// characters and in columns.
pub open spec fn fit(t: Seq<char>, max: int) -> (int, int)
    decreases t.len(),
{
    if t.len() == 0 || columns_of(t[0]) > max {
        (0, 0)
    } else {
        let (n, c) = fit(t.drop_first(), max - columns_of(t[0]));
        (n + 1, c + columns_of(t[0]))
    }
}

/// A fitting prefix is no longer than the text and no wider than allowed.
pub proof fn lemma_fit_bounds(t: Seq<char>, max: int)
    ensures
        0 <= fit(t, max).0 <= t.len(),
        max >= 0 ==> 0 <= fit(t, max).1 <= max,
    decreases t.len(),
{
    if t.len() > 0 && columns_of(t[0]) <= max {
        assert(columns_of(t[0]) >= 0);
        lemma_fit_bounds(t.drop_first(), max - columns_of(t[0]));
    }
}

/// The number of leading characters of `chars[from..]` that fit in
/// `max_cols` display columns, and the columns they take.
fn chars_fitting_columns(chars: &Vec<char>, from: usize, max_cols: usize) -> (r: (usize, usize))
    requires
        from <= chars@.len(),
    ensures
        r.0 == fit(chars@.skip(from as int), max_cols as int).0,
        r.1 == fit(chars@.skip(from as int), max_cols as int).1,
        from + r.0 <= chars@.len(),
        r.1 <= max_cols,
{
    let mut cols: usize = 0;
    let mut count: usize = 0;
    let mut i: usize = from;
    proof {
        lemma_fit_bounds(chars@.skip(from as int), max_cols as int);
    }
    while i < chars.len()
        invariant_except_break
            from <= i <= chars@.len(),
            count == i - from,
            cols <= max_cols,
            fit(chars@.skip(from as int), max_cols as int) == (
                count + fit(chars@.skip(i as int), (max_cols - cols) as int).0,
                cols + fit(chars@.skip(i as int), (max_cols - cols) as int).1,
            ),
        ensures
            from <= i <= chars@.len(),
            count == i - from,
            cols <= max_cols,
            fit(chars@.skip(from as int), max_cols as int) == (count as int, cols as int),
        decreases chars@.len() - i,
    {
        let c = chars[i];
        let w = match char_columns(c) {
            Some(n) => n,
            None => 0,
        };
        let ghost rest = chars@.skip(i as int);
        proof {
            assert(rest[0] == c);
            assert(rest.drop_first() =~= chars@.skip(i + 1));
            assert(columns_of(c) == w);
        }
        if w > max_cols - cols {
            break;
        }
        cols += w;
        count += 1;
        i += 1;
    }
    proof {
        if i == chars@.len() {
            assert(chars@.skip(i as int).len() == 0);
        }
    }
    (count, cols)
}

/// A piece of text with its color, as the wrapped lines hold it.
pub type Piece = (Seq<char>, SpanColor);

/// The state of wrapping: finished lines (pieces and their width), the
/// pieces of the current line, and its width.
pub type WrapState = (Seq<(Seq<Piece>, int)>, Seq<Piece>, int);

/// Wraps the text `rem` of one span, in `color`, onto lines `width`
/// columns wide, from state `st`: a full line is closed; otherwise the
/// longest prefix that fits is added; a first character too wide for what
/// is left opens a new line, on which the longest prefix that fits a whole
/// line is placed, at least that character, counted as one column or more.
pub open spec fn wrap_text(rem: Seq<char>, color: SpanColor, width: int, st: WrapState) -> WrapState
    decreases rem.len(), (if st.2 >= width { 1int } else { 0int }),
{
    let (lines, cur, len) = st;
    if rem.len() == 0 || width <= 0 {
        st
    } else if len >= width {
        wrap_text(rem, color, width, (lines.push((cur, len)), seq![], 0))
    } else {
        proof {
            lemma_fit_bounds(rem, width - len);
            lemma_fit_bounds(rem, width);
        }
        let (n, c) = fit(rem, width - len);
        if n <= 0 {
            let flushed: WrapState = if cur.len() > 0 {
                (lines.push((cur, len)), seq![], 0)
            } else {
                st
            };
            let (n2, c2) = fit(rem, width);
            let take = if n2 >= 1 {
                n2
            } else {
                1
            };
            let cols = if c2 >= 1 {
                c2
            } else {
                1
            };
            wrap_text(
                rem.skip(take),
                color,
                width,
                (flushed.0, flushed.1.push((rem.take(take), color)), flushed.2 + cols),
            )
        } else {
            wrap_text(rem.skip(n), color, width, (lines, cur.push((rem.take(n), color)), len + c))
        }
    }
}

/// The pieces a list of spans starts as.
pub open spec fn span_pieces(spans: Seq<ColoredSpan>) -> Seq<Piece> {
    spans.map_values(|s: ColoredSpan| (s.text@, s.color))
}

/// The state after wrapping the first `k` pieces.
pub open spec fn wrap_upto(pieces: Seq<Piece>, width: int, k: int) -> WrapState
    decreases k,
{
    if k <= 0 {
        (seq![], seq![], 0)
    } else {
        wrap_text(pieces[k - 1].0, pieces[k - 1].1, width, wrap_upto(pieces, width, k - 1))
    }
}

/// The columns all pieces take.
pub open spec fn pieces_columns(pieces: Seq<Piece>) -> int
    decreases pieces.len(),
{
    if pieces.len() == 0 {
        0
    } else {
        pieces_columns(pieces.drop_last()) + text_columns(pieces.last().0)
    }
}

/// The visual lines a list of pieces is wrapped into at `width` columns
/// (all on one line when the width is zero), each with its width; there is
/// always at least one.
pub open spec fn wrap_lines(pieces: Seq<Piece>, width: int) -> Seq<(Seq<Piece>, int)> {
    if width <= 0 {
        seq![(pieces, pieces_columns(pieces))]
    } else {
        let (lines, cur, len) = wrap_upto(pieces, width, pieces.len() as int);
        if cur.len() > 0 || lines.len() == 0 {
            lines.push((cur, len))
        } else {
            lines
        }
    }
}

/// `lines` holds the visual lines `model`.
pub open spec fn wrapped_is(lines: Seq<(Vec<ColoredSpan>, usize)>, model: Seq<(Seq<Piece>, int)>) -> bool {
    &&& lines.len() == model.len()
    &&& forall|k: int|
        0 <= k < lines.len() ==> {
            &&& span_pieces((#[trigger] lines[k]).0@) == model[k].0
            &&& lines[k].1 == model[k].1
        }
}

/// Display width of a string in terminal columns.
pub fn display_width(text: &str) -> (w: usize)
    requires
        text_columns(text@) <= usize::MAX,
    ensures
        w == text_columns(text@),
{
    let chars = chars_of(text);
    let mut total: usize = 0;
    let mut i: usize = 0;
    while i < chars.len()
        invariant
            i <= chars@.len(),
            chars@ == text@,
            text_columns(text@) <= usize::MAX,
            total == text_columns(chars@.take(i as int)),
        decreases chars@.len() - i,
    {
        let w = match char_columns(chars[i]) {
            Some(n) => n,
            None => 0,
        };
        proof {
            assert(chars@.take(i + 1).drop_last() =~= chars@.take(i as int));
            lemma_text_columns_prefix(chars@, i + 1);
        }
        total = total + w;
        i += 1;
    }
    proof {
        assert(chars@.take(i as int) =~= chars@);
    }
    total
}

/// A prefix takes no more columns than the whole.
proof fn lemma_text_columns_prefix(t: Seq<char>, k: int)
    requires
        0 <= k <= t.len(),
    ensures
        0 <= text_columns(t.take(k)) <= text_columns(t),
    decreases t.len() - k,
{
    lemma_text_columns_nonneg(t.take(k));
    if k < t.len() {
        lemma_text_columns_prefix(t, k + 1);
        assert(t.take(k + 1).drop_last() =~= t.take(k));
        assert(t.take(k + 1).last() == t[k]);
        assert(columns_of(t[k]) >= 0);
    } else {
        assert(t.take(k) =~= t);
        lemma_text_columns_nonneg(t);
    }
}

proof fn lemma_text_columns_nonneg(t: Seq<char>)
    ensures
        text_columns(t) >= 0,
    decreases t.len(),
{
    if t.len() > 0 {
        lemma_text_columns_nonneg(t.drop_last());
    }
}


/// The wrapping state that exec lines, a current line and its width stand
/// for.
pub open spec fn state_of(lines: Seq<(Vec<ColoredSpan>, usize)>, cur: Seq<ColoredSpan>, len: usize) -> WrapState {
    (lines.map_values(|l: (Vec<ColoredSpan>, usize)| (span_pieces(l.0@), l.1 as int)), span_pieces(cur), len as int)
}

proof fn lemma_state_push(lines: Seq<(Vec<ColoredSpan>, usize)>, line: (Vec<ColoredSpan>, usize))
    ensures
        lines.push(line).map_values(|l: (Vec<ColoredSpan>, usize)| (span_pieces(l.0@), l.1 as int))
            == lines.map_values(|l: (Vec<ColoredSpan>, usize)| (span_pieces(l.0@), l.1 as int)).push(
            (span_pieces(line.0@), line.1 as int),
        ),
{
    assert(lines.push(line).map_values(|l: (Vec<ColoredSpan>, usize)| (span_pieces(l.0@), l.1 as int))
        =~= lines.map_values(|l: (Vec<ColoredSpan>, usize)| (span_pieces(l.0@), l.1 as int)).push(
        (span_pieces(line.0@), line.1 as int),
    ));
}

proof fn lemma_pieces_push(cur: Seq<ColoredSpan>, span: ColoredSpan)
    ensures
        span_pieces(cur.push(span)) == span_pieces(cur).push((span.text@, span.color)),
{
    assert(span_pieces(cur.push(span)) =~= span_pieces(cur).push((span.text@, span.color)));
}

/// Split a list of colored spans into visual lines of at most `width`
/// columns. Each returned element is (spans, visual length).
///
/// Uses Unicode display width so that multi-byte characters like `─` (3
/// bytes, 1 column) and CJK characters (2 columns) are measured correctly.
pub fn wrap_spans<'a>(spans: &[ColoredSpan<'a>], width: usize) -> (r: Vec<(Vec<ColoredSpan<'a>>, usize)>)
    requires
        width == 0 ==> pieces_columns(span_pieces(spans@)) <= usize::MAX,
    ensures
        wrapped_is(r@, wrap_lines(span_pieces(spans@), width as int)),
{
    let ghost pieces = span_pieces(spans@);
    if width == 0 {
        let mut all: Vec<ColoredSpan> = Vec::new();
        let mut total: usize = 0;
        let mut k: usize = 0;
        while k < spans.len()
            invariant
                k <= spans@.len(),
                pieces == span_pieces(spans@),
                pieces_columns(pieces) <= usize::MAX,
                all@ == spans@.take(k as int),
                total == pieces_columns(pieces.take(k as int)),
            decreases spans@.len() - k,
        {
            proof {
                lemma_pieces_columns_prefix(pieces, k + 1);
                assert(pieces.take(k + 1).drop_last() =~= pieces.take(k as int));
                assert(pieces.take(k + 1).last() == pieces[k as int]);
                lemma_text_columns_nonneg(pieces[k as int].0);
                lemma_pieces_columns_nonneg(pieces.take(k as int));
            }
            let w = display_width(spans[k].text);
            total = total + w;
            all.push(spans[k]);
            proof {
                assert(all@ =~= spans@.take(k + 1));
            }
            k += 1;
        }
        proof {
            assert(all@ =~= spans@);
            assert(pieces.take(k as int) =~= pieces);
        }
        let mut r: Vec<(Vec<ColoredSpan>, usize)> = Vec::new();
        r.push((all, total));
        return r;
    }
    let mut lines: Vec<(Vec<ColoredSpan>, usize)> = Vec::new();
    let mut current_spans: Vec<ColoredSpan> = Vec::new();
    let mut current_len: usize = 0;
    let mut k: usize = 0;
    proof {
        assert(state_of(lines@, current_spans@, current_len) =~= wrap_upto(pieces, width as int, 0));
    }
    while k < spans.len()
        invariant
            k <= spans@.len(),
            width > 0,
            pieces == span_pieces(spans@),
            current_len <= width,
            current_spans@.len() == 0 ==> current_len == 0,
            state_of(lines@, current_spans@, current_len) == wrap_upto(pieces, width as int, k as int),
        decreases spans@.len() - k,
    {
        let span = spans[k];
        let chars = chars_of(span.text);
        let n = chars.len();
        let mut pos: usize = 0;
        proof {
            assert(pieces[k as int] == (span.text@, span.color));
            assert(chars@.skip(0) =~= chars@);
        }
        while pos < n
            invariant
                pos <= n == chars@.len(),
                chars@ == span.text@,
                width > 0,
                current_len <= width,
                current_spans@.len() == 0 ==> current_len == 0,
                wrap_text(chars@.skip(pos as int), span.color, width as int, state_of(lines@, current_spans@, current_len))
                    == wrap_upto(pieces, width as int, k + 1),
            decreases n - pos, (if current_len >= width { 1int } else { 0int }),
        {
            let ghost rem = chars@.skip(pos as int);
            let ghost st = state_of(lines@, current_spans@, current_len);
            if current_len >= width {
                proof {
                    lemma_state_push(lines@, (current_spans, current_len));
                }
                lines.push((current_spans, current_len));
                current_spans = Vec::new();
                current_len = 0;
                proof {
                    assert(span_pieces(current_spans@) =~= Seq::<Piece>::empty());
                }
                continue;
            }
            let avail = width - current_len;
            let (take, cols) = chars_fitting_columns(&chars, pos, avail);
            if take == 0 {
                let ghost flushed = if st.1.len() > 0 {
                    (st.0.push((st.1, st.2)), Seq::<Piece>::empty(), 0int)
                } else {
                    st
                };
                if current_spans.len() > 0 {
                    proof {
                        lemma_state_push(lines@, (current_spans, current_len));
                    }
                    lines.push((current_spans, current_len));
                    current_spans = Vec::new();
                    current_len = 0;
                    proof {
                        assert(span_pieces(current_spans@) =~= Seq::<Piece>::empty());
                    }
                }
                let (take2, cols2) = chars_fitting_columns(&chars, pos, width);
                let take2 = if take2 >= 1 {
                    take2
                } else {
                    1
                };
                let cols2 = if cols2 >= 1 {
                    cols2
                } else {
                    1
                };
                let piece = ColoredSpan { text: span.text.substring_char(pos, pos + take2), color: span.color };
                proof {
                    lemma_pieces_push(current_spans@, piece);
                    assert(piece.text@ =~= rem.take(take2 as int));
                    assert(chars@.skip(pos + take2) =~= rem.skip(take2 as int));
                }
                current_spans.push(piece);
                current_len = current_len + cols2;
                pos = pos + take2;
            } else {
                let piece = ColoredSpan { text: span.text.substring_char(pos, pos + take), color: span.color };
                proof {
                    lemma_pieces_push(current_spans@, piece);
                    assert(piece.text@ =~= rem.take(take as int));
                    assert(chars@.skip(pos + take) =~= rem.skip(take as int));
                }
                current_spans.push(piece);
                current_len = current_len + cols;
                pos = pos + take;
            }
        }
        proof {
            assert(chars@.skip(pos as int).len() == 0);
        }
        k += 1;
    }
    if current_spans.len() > 0 || lines.len() == 0 {
        proof {
            lemma_state_push(lines@, (current_spans, current_len));
        }
        lines.push((current_spans, current_len));
    }
    proof {
        let model = wrap_lines(pieces, width as int);
        let ls = lines@.map_values(|l: (Vec<ColoredSpan>, usize)| (span_pieces(l.0@), l.1 as int));
        assert(ls == model);
        assert forall|j: int| 0 <= j < lines@.len() implies {
            &&& span_pieces((#[trigger] lines@[j]).0@) == model[j].0
            &&& lines@[j].1 == model[j].1
        } by {
            assert(ls[j] == (span_pieces(lines@[j].0@), lines@[j].1 as int));
        }
    }
    lines
}

proof fn lemma_pieces_columns_nonneg(p: Seq<Piece>)
    ensures
        pieces_columns(p) >= 0,
    decreases p.len(),
{
    if p.len() > 0 {
        lemma_pieces_columns_nonneg(p.drop_last());
        lemma_text_columns_nonneg(p.last().0);
    }
}

proof fn lemma_pieces_columns_prefix(p: Seq<Piece>, k: int)
    requires
        0 <= k <= p.len(),
    ensures
        pieces_columns(p.take(k)) <= pieces_columns(p),
    decreases p.len() - k,
{
    if k < p.len() {
        lemma_pieces_columns_prefix(p, k + 1);
        assert(p.take(k + 1).drop_last() =~= p.take(k));
        assert(p.take(k + 1).last() == p[k]);
        lemma_text_columns_nonneg(p[k].0);
    } else {
        assert(p.take(k) =~= p);
    }
}


// ---------------------------------------------------------------------------
// Rendering
// ---------------------------------------------------------------------------

/// `n` copies of `c`.
pub open spec fn repeat_char(c: char, n: nat) -> Seq<char> {
    Seq::new(n, |_i: int| c)
}

/// The texts of `p`, one after the other.
pub open spec fn pieces_text(p: Seq<Piece>) -> Seq<char>
    decreases p.len(),
{
    if p.len() == 0 {
        seq![]
    } else {
        pieces_text(p.drop_last()) + p.last().0
    }
}

/// No piece holds an escape character.
pub open spec fn pieces_clean(p: Seq<Piece>) -> bool {
    forall|i: int| 0 <= i < p.len() ==> no_escape(#[trigger] p[i].0)
}

/// Appending `added` to an output that shows `strip_ansi_from(before)`
/// makes it show that followed by `x`.
pub open spec fn extends(before: Seq<char>, after: Seq<char>, x: Seq<char>) -> bool {
    !escape_state_after(before, false) ==> shows(after, strip_ansi_from(before, false) + x)
}

proof fn lemma_extends_append(before: Seq<char>, piece: Seq<char>, x: Seq<char>)
    requires
        shows(piece, x),
    ensures
        extends(before, before + piece, x),
{
    if !escape_state_after(before, false) {
        lemma_strip_concat(before, piece, false);
    }
}

proof fn lemma_extends_trans(a: Seq<char>, b: Seq<char>, c: Seq<char>, x: Seq<char>, y: Seq<char>)
    requires
        extends(a, b, x),
        extends(b, c, y),
    ensures
        extends(a, c, x + y),
{
    if !escape_state_after(a, false) {
        assert(strip_ansi_from(a, false) + x + y =~= strip_ansi_from(a, false) + (x + y));
    }
}

proof fn lemma_extends_refl(a: Seq<char>)
    ensures
        extends(a, a, seq![]),
{
    if !escape_state_after(a, false) {
        assert(strip_ansi_from(a, false) + Seq::<char>::empty() =~= strip_ansi_from(a, false));
    }
}

proof fn lemma_repeat_clean(c: char, n: nat)
    requires
        c != '\x1b',
    ensures
        no_escape(repeat_char(c, n)),
{
    if repeat_char(c, n).contains('\x1b') {
        let i = choose|i: int| 0 <= i < repeat_char(c, n).len() && repeat_char(c, n)[i] == '\x1b';
        assert(repeat_char(c, n)[i] == c);
    }
}

proof fn lemma_concat_clean(a: Seq<char>, b: Seq<char>)
    requires
        no_escape(a),
        no_escape(b),
    ensures
        no_escape(a + b),
{
    if (a + b).contains('\x1b') {
        let i = choose|i: int| 0 <= i < (a + b).len() && (a + b)[i] == '\x1b';
        if i < a.len() {
            assert(a[i] == '\x1b');
        } else {
            assert(b[i - a.len()] == '\x1b');
        }
    }
}

proof fn lemma_decimal_clean(n: nat)
    ensures
        no_escape(decimal_spec(n)),
    decreases n,
{
    if n >= 10 {
        lemma_decimal_clean(n / 10);
        lemma_concat_clean(decimal_spec(n / 10), seq![digit_char(n % 10)]);
        assert(decimal_spec(n) =~= decimal_spec(n / 10) + seq![digit_char(n % 10)]);
    }
    if seq![digit_char(n % 10)].contains('\x1b') {
        assert(seq![digit_char(n % 10)][0] == digit_char(n % 10));
    }
    if n < 10 && decimal_spec(n).contains('\x1b') {
        assert(decimal_spec(n)[0] == digit_char(n));
    }
}

/// Appends `n` copies of `c`.
fn push_repeated(out: &mut String, c: char, n: usize)
    ensures
        final(out)@ == old(out)@ + repeat_char(c, n as nat),
{
    let mut i: usize = 0;
    while i < n
        invariant
            i <= n,
            out@ == old(out)@ + repeat_char(c, i as nat),
        decreases n - i,
    {
        push_char(out, c);
        i += 1;
        proof {
            assert(out@ =~= old(out)@ + repeat_char(c, i as nat));
        }
    }
}

/// The terminal style of a color: none for unchanged text, red (SGR 31)
/// for deleted, green (32) for inserted and yellow (33) for updated text.
pub open spec fn color_code(c: SpanColor) -> Option<Seq<char>> {
    match c {
        SpanColor::Unchanged => None,
        SpanColor::Updated => Some(seq!['3', '3']),
        SpanColor::Deleted => Some(seq!['3', '1']),
        SpanColor::Inserted => Some(seq!['3', '2']),
    }
}

/// `out` is `text` painted in color `c`: the text itself when unchanged,
/// else the text as the color's style renders it.
pub open spec fn painted_as(out: Seq<char>, text: Seq<char>, c: SpanColor) -> bool {
    match color_code(c) {
        None => out == text,
        Some(code) => plain_or_styled(out, text, code),
    }
}

/// The parts one after another.
pub open spec fn joined(parts: Seq<Seq<char>>) -> Seq<char>
    decreases parts.len(),
{
    if parts.len() == 0 {
        seq![]
    } else {
        joined(parts.drop_last()) + parts.last()
    }
}

/// Each part is the matching span painted in its color.
pub open spec fn painted_parts(parts: Seq<Seq<char>>, spans: Seq<ColoredSpan>) -> bool {
    &&& parts.len() == spans.len()
    &&& forall|k: int| 0 <= k < parts.len() ==> painted_as(#[trigger] parts[k], spans[k].text@, spans[k].color)
}

/// `out` is `a`, then `part`, then `b`.
pub open spec fn pieced(out: Seq<char>, a: Seq<char>, part: Seq<char>, b: Seq<char>) -> bool {
    out == a + part + b
}

/// Somewhere in `out` stands `text` painted in `color`.
pub open spec fn holds_painted(out: Seq<char>, text: Seq<char>, color: SpanColor) -> bool {
    exists|a: Seq<char>, part: Seq<char>, b: Seq<char>| #[trigger] pieced(out, a, part, b) && painted_as(part, text, color)
}

/// What `out` holds, text around it holds too.
proof fn lemma_holds_extended(x: Seq<char>, out: Seq<char>, y: Seq<char>, text: Seq<char>, color: SpanColor)
    requires
        holds_painted(out, text, color),
    ensures
        holds_painted(x + out + y, text, color),
{
    let (a, part, b) = choose|a: Seq<char>, part: Seq<char>, b: Seq<char>|
        #[trigger] pieced(out, a, part, b) && painted_as(part, text, color);
    assert(x + out + y =~= (x + a) + part + (b + y));
    assert(pieced(x + out + y, x + a, part, b + y));
}

/// The parts joined hold each span painted in its color.
proof fn lemma_joined_holds(parts: Seq<Seq<char>>, spans: Seq<ColoredSpan>, k: int)
    requires
        painted_parts(parts, spans),
        0 <= k < parts.len(),
    ensures
        holds_painted(joined(parts), spans[k].text@, spans[k].color),
    decreases parts.len(),
{
    let front = joined(parts.drop_last());
    assert(joined(parts) == front + parts.last());
    if k == parts.len() - 1 {
        assert(painted_as(parts[k], spans[k].text@, spans[k].color));
        assert(joined(parts) =~= front + parts.last() + Seq::<char>::empty());
        assert(pieced(joined(parts), front, parts.last(), Seq::<char>::empty()));
    } else {
        assert(painted_parts(parts.drop_last(), spans.drop_last())) by {
            assert forall|q: int| 0 <= q < parts.drop_last().len() implies painted_as(
                #[trigger] parts.drop_last()[q],
                spans.drop_last()[q].text@,
                spans.drop_last()[q].color,
            ) by {
                assert(painted_as(parts[q], spans[q].text@, spans[q].color));
            }
        }
        lemma_joined_holds(parts.drop_last(), spans.drop_last(), k);
        lemma_holds_extended(Seq::<char>::empty(), front, parts.last(), spans[k].text@, spans[k].color);
        assert(Seq::<char>::empty() + front + parts.last() =~= joined(parts));
    }
}

/// Paints the spans, each in its color: the output is the spans one after
/// another, each painted in its own color.
pub fn render_spans(spans: &[ColoredSpan]) -> (s: String)
    ensures
        pieces_clean(span_pieces(spans@)) ==> shows(s@, pieces_text(span_pieces(spans@))),
        exists|parts: Seq<Seq<char>>| #[trigger] painted_parts(parts, spans@) && s@ == joined(parts),
{
    let ghost pieces = span_pieces(spans@);
    let ghost mut parts: Seq<Seq<char>> = seq![];
    let mut out = String::new();
    let mut i: usize = 0;
    proof {
        assert(pieces.take(0) =~= Seq::<Piece>::empty());
        assert(out@ =~= Seq::<char>::empty());
        lemma_shows_plain(Seq::<char>::empty());
    }
    while i < spans.len()
        invariant
            i <= spans@.len(),
            pieces == span_pieces(spans@),
            pieces_clean(pieces) ==> shows(out@, pieces_text(pieces.take(i as int))),
            parts.len() == i,
            out@ == joined(parts),
            forall|k: int| 0 <= k < i ==> painted_as(#[trigger] parts[k], spans@[k].text@, spans@[k].color),
        decreases spans@.len() - i,
    {
        let span = spans[i];
        let painted = match span.color {
            SpanColor::Unchanged => String::from_str(span.text),
            SpanColor::Updated => yellow_text(span.text),
            SpanColor::Deleted => red_text(span.text),
            SpanColor::Inserted => green_text(span.text),
        };
        let ghost before = out@;
        out.append(painted.as_str());
        proof {
            let old_parts = parts;
            parts = parts.push(painted@);
            assert(parts.drop_last() =~= old_parts);
            assert(spans@[i as int] == span);
            assert forall|k: int| 0 <= k < i + 1 implies painted_as(#[trigger] parts[k], spans@[k].text@, spans@[k].color) by {
                if k < i {
                    assert(parts[k] == old_parts[k]);
                }
            }
            assert(pieces.take(i + 1).drop_last() =~= pieces.take(i as int));
            assert(pieces.take(i + 1).last() == pieces[i as int]);
            assert(pieces[i as int] == (span.text@, span.color));
            if pieces_clean(pieces) {
                assert(no_escape(pieces[i as int].0));
                assert(code_ok(seq!['3', '1']));
                assert(code_ok(seq!['3', '2']));
                assert(code_ok(seq!['3', '3']));
                match span.color {
                    SpanColor::Unchanged => lemma_shows_plain(span.text@),
                    SpanColor::Updated => lemma_shows_painted(painted@, span.text@, seq!['3', '3']),
                    SpanColor::Deleted => lemma_shows_painted(painted@, span.text@, seq!['3', '1']),
                    SpanColor::Inserted => lemma_shows_painted(painted@, span.text@, seq!['3', '2']),
                }
                lemma_shows_concat(before, pieces_text(pieces.take(i as int)), painted@, span.text@);
            }
        }
        i += 1;
    }
    proof {
        assert(pieces.take(i as int) =~= pieces);
        assert(painted_parts(parts, spans@));
    }
    out
}

/// Builds a dimmed fill string of `•` characters to occupy `width` columns.
pub fn absent_fill(width: usize) -> (s: String)
    ensures
        shows(s@, repeat_char('•', width as nat)),
{
    let mut fill = String::new();
    push_repeated(&mut fill, '•', width);
    let s = dimmed_text(fill.as_str());
    proof {
        assert(fill@ =~= repeat_char('•', width as nat));
        lemma_repeat_clean('•', width as nat);
        assert(code_ok(seq!['2']));
        lemma_shows_painted(s@, fill@, seq!['2']);
    }
    s
}

/// `t` right-aligned in `width` columns, spaces in front.
pub open spec fn right_aligned(t: Seq<char>, width: nat) -> Seq<char> {
    if t.len() < width {
        repeat_char(' ', (width - t.len()) as nat) + t
    } else {
        t
    }
}

/// A line-number cell: the number right-aligned on the first visual line,
/// blank on wrapped continuation lines or when the side has no line.
pub open spec fn number_plain(number: Option<usize>, visual_index: int, width: nat) -> Seq<char> {
    match number {
        Some(n) => if visual_index == 0 {
            right_aligned(decimal_spec(n as nat), width)
        } else {
            repeat_char(' ', width)
        },
        None => repeat_char(' ', width),
    }
}

/// Formats one line-number cell: right-aligned and dimmed (or cyan when the
/// row is moved) on the first visual line, blank on wrapped continuation
/// lines or when the side has no line.
pub fn number_cell(number: Option<usize>, visual_index: usize, is_moved: bool, width: usize) -> (s: String)
    ensures
        shows(s@, number_plain(number, visual_index as int, width as nat)),
        number is Some && visual_index == 0 ==> plain_or_styled(
            s@,
            number_plain(number, visual_index as int, width as nat),
            if is_moved {
                seq!['3', '6']
            } else {
                seq!['2']
            },
        ),
        !(number is Some && visual_index == 0) ==> s@ == repeat_char(' ', width as nat),
{
    match number {
        Some(n) => {
            if visual_index == 0 {
                let mut digits = String::new();
                push_decimal(&mut digits, n as u64);
                let count = digits.unicode_len();
                let mut cell = String::new();
                if count < width {
                    push_repeated(&mut cell, ' ', width - count);
                }
                cell.append(digits.as_str());
                proof {
                    assert(digits@ =~= decimal_spec(n as nat));
                    assert(cell@ =~= right_aligned(decimal_spec(n as nat), width as nat));
                    lemma_decimal_clean(n as nat);
                    lemma_repeat_clean(' ', (width - count) as nat);
                    if count < width {
                        lemma_concat_clean(repeat_char(' ', (width - count) as nat), decimal_spec(n as nat));
                    }
                    assert(code_ok(seq!['3', '6']));
                    assert(code_ok(seq!['2']));
                }
                let s = if is_moved {
                    cyan_text(cell.as_str())
                } else {
                    dimmed_text(cell.as_str())
                };
                proof {
                    if is_moved {
                        lemma_shows_painted(s@, cell@, seq!['3', '6']);
                    } else {
                        lemma_shows_painted(s@, cell@, seq!['2']);
                    }
                }
                return s;
            }
        },
        None => {},
    }
    let mut blank = String::new();
    push_repeated(&mut blank, ' ', width);
    proof {
        lemma_repeat_clean(' ', width as nat);
        lemma_shows_plain(blank@);
    }
    blank
}


/// Appends a painted piece that shows `x` to a line that shows `sofar`.
fn append_shown(
    line: &mut String,
    piece: &str,
    Ghost(clean): Ghost<bool>,
    Ghost(sofar): Ghost<Seq<char>>,
    Ghost(x): Ghost<Seq<char>>,
)
    requires
        clean ==> shows(old(line)@, sofar),
        clean ==> shows(piece@, x),
    ensures
        clean ==> shows(final(line)@, sofar + x),
        final(line)@ == old(line)@ + piece@,
{
    let ghost before = line@;
    line.append(piece);
    proof {
        if clean {
            lemma_shows_concat(before, sofar, piece@, x);
        }
    }
}

/// Appends one plain character to a line that shows `sofar`.
fn append_char(line: &mut String, c: char, Ghost(clean): Ghost<bool>, Ghost(sofar): Ghost<Seq<char>>)
    requires
        c != '\x1b',
        clean ==> shows(old(line)@, sofar),
    ensures
        clean ==> shows(final(line)@, sofar + seq![c]),
        final(line)@ == old(line)@ + seq![c],
{
    let ghost before = line@;
    push_char(line, c);
    proof {
        if clean {
            lemma_repeat_clean(c, 1);
            assert(repeat_char(c, 1) =~= seq![c]);
            lemma_shows_plain(seq![c]);
            lemma_shows_concat(before, sofar, seq![c], seq![c]);
            assert(line@ == before + seq![c]);
        }
    }
}

/// The first `upto` visual lines of a side stand in `out`, each piece of
/// them painted in its color.
pub open spec fn side_held(out: Seq<char>, lines: Seq<(Seq<Piece>, int)>, upto: int) -> bool {
    forall|w: int, k: int|
        0 <= w < upto && w < lines.len() && 0 <= k < lines[w].0.len() ==> holds_painted(
            out,
            (#[trigger] lines[w].0[k]).0,
            lines[w].0[k].1,
        )
}

/// Every piece of every visual line of both sides of the row stands in
/// `out` painted in its color.
pub open spec fn row_colors_held(out: Seq<char>, m: RowModel, cw: int) -> bool {
    &&& side_held(out, side_lines(m.0, m.1, cw), side_lines(m.0, m.1, cw).len() as int)
    &&& side_held(out, side_lines(m.2, m.3, cw), side_lines(m.2, m.3, cw).len() as int)
}

/// What `out` holds of a side, text around it holds too.
proof fn lemma_side_held_extended(x: Seq<char>, out: Seq<char>, y: Seq<char>, lines: Seq<(Seq<Piece>, int)>, upto: int)
    requires
        side_held(out, lines, upto),
    ensures
        side_held(x + out + y, lines, upto),
{
    assert forall|w: int, k: int|
        0 <= w < upto && w < lines.len() && 0 <= k < lines[w].0.len() implies holds_painted(
            x + out + y,
            (#[trigger] lines[w].0[k]).0,
            lines[w].0[k].1,
        ) by {
        lemma_holds_extended(x, out, y, lines[w].0[k].0, lines[w].0[k].1);
    }
}

/// The spans rendered hold each of their pieces painted in its color.
proof fn lemma_rendered_holds(rendered: Seq<char>, spans: Seq<ColoredSpan>, pieces: Seq<Piece>)
    requires
        exists|parts: Seq<Seq<char>>| #[trigger] painted_parts(parts, spans) && rendered == joined(parts),
        span_pieces(spans) == pieces,
    ensures
        forall|k: int| 0 <= k < pieces.len() ==> holds_painted(rendered, (#[trigger] pieces[k]).0, pieces[k].1),
{
    let parts = choose|parts: Seq<Seq<char>>| #[trigger] painted_parts(parts, spans) && rendered == joined(parts);
    assert forall|k: int| 0 <= k < pieces.len() implies holds_painted(rendered, (#[trigger] pieces[k]).0, pieces[k].1) by {
        assert(pieces[k] == (spans[k].text@, spans[k].color));
        lemma_joined_holds(parts, spans, k);
    }
}

/// What `out` holds of a row, text around it holds too.
proof fn lemma_row_colors_extended(x: Seq<char>, out: Seq<char>, y: Seq<char>, m: RowModel, cw: int)
    requires
        row_colors_held(out, m, cw),
    ensures
        row_colors_held(x + out + y, m, cw),
{
    lemma_side_held_extended(x, out, y, side_lines(m.0, m.1, cw), side_lines(m.0, m.1, cw).len() as int);
    lemma_side_held_extended(x, out, y, side_lines(m.2, m.3, cw), side_lines(m.2, m.3, cw).len() as int);
}

/// Somewhere in `out` stands `text` in the style of SGR code `code`.
pub open spec fn holds_styled(out: Seq<char>, text: Seq<char>, code: Seq<char>) -> bool {
    exists|a: Seq<char>, part: Seq<char>, b: Seq<char>| #[trigger] pieced(out, a, part, b) && plain_or_styled(part, text, code)
}

/// The style of a row's line numbers: cyan (SGR 36) when the row moved,
/// dimmed (SGR 2) otherwise.
pub open spec fn number_code(moved: bool) -> Seq<char> {
    if moved {
        seq!['3', '6']
    } else {
        seq!['2']
    }
}

/// The line numbers a row shows on its first visual line stand in `out`
/// in the row's number style.
pub open spec fn row_numbers_held(out: Seq<char>, m: RowModel, lw: int) -> bool {
    &&& m.0 is Some ==> holds_styled(out, number_plain(m.0, 0, lw as nat), number_code(m.5))
    &&& m.2 is Some ==> holds_styled(out, number_plain(m.2, 0, lw as nat), number_code(m.5))
}

/// What `out` holds in a style, text around it holds too.
proof fn lemma_styled_extended(x: Seq<char>, out: Seq<char>, y: Seq<char>, text: Seq<char>, code: Seq<char>)
    requires
        holds_styled(out, text, code),
    ensures
        holds_styled(x + out + y, text, code),
{
    let (a, part, b) = choose|a: Seq<char>, part: Seq<char>, b: Seq<char>|
        #[trigger] pieced(out, a, part, b) && plain_or_styled(part, text, code);
    assert(x + out + y =~= (x + a) + part + (b + y));
    assert(pieced(x + out + y, x + a, part, b + y));
}

/// What `out` holds of a row's numbers, text around it holds too.
proof fn lemma_row_numbers_extended(x: Seq<char>, out: Seq<char>, y: Seq<char>, m: RowModel, lw: int)
    requires
        row_numbers_held(out, m, lw),
    ensures
        row_numbers_held(x + out + y, m, lw),
{
    if m.0 is Some {
        lemma_styled_extended(x, out, y, number_plain(m.0, 0, lw as nat), number_code(m.5));
    }
    if m.2 is Some {
        lemma_styled_extended(x, out, y, number_plain(m.2, 0, lw as nat), number_code(m.5));
    }
}

/// The rows of the first `upto` hunks stand in `out` with their colors.
pub open spec fn hunks_colors_held(out: Seq<char>, models: Seq<RowModel>, hunks: Seq<(usize, usize)>, upto: int, cw: int, lw: int) -> bool {
    forall|h: int, j: int|
        #![trigger hunks[h], models[j]]
        0 <= h < upto && hunks[h].0 <= j < hunks[h].1 ==> row_colors_held(out, models[j], cw) && row_numbers_held(
            out,
            models[j],
            lw,
        )
}

/// What `out` holds of the hunks, a longer text starting with it holds too.
proof fn lemma_hunks_colors_grown(out: Seq<char>, longer: Seq<char>, models: Seq<RowModel>, hunks: Seq<(usize, usize)>, upto: int, cw: int, lw: int)
    requires
        hunks_colors_held(out, models, hunks, upto, cw, lw),
        out.is_prefix_of(longer),
    ensures
        hunks_colors_held(longer, models, hunks, upto, cw, lw),
{
    let rest = longer.subrange(out.len() as int, longer.len() as int);
    assert(Seq::<char>::empty() + out + rest =~= longer);
    assert forall|h: int, j: int|
        #![trigger hunks[h], models[j]]
        0 <= h < upto && hunks[h].0 <= j < hunks[h].1 implies row_colors_held(longer, models[j], cw)
            && row_numbers_held(longer, models[j], lw) by {
        lemma_row_colors_extended(Seq::<char>::empty(), out, rest, models[j], cw);
        lemma_row_numbers_extended(Seq::<char>::empty(), out, rest, models[j], lw);
    }
}

/// A row as the view draws it: the source line number and pieces, the
/// destination line number and pieces, whether it changed, whether it
/// moved.
pub type RowModel = (Option<usize>, Seq<Piece>, Option<usize>, Seq<Piece>, bool, bool);

/// The model of an output row.
pub open spec fn row_model(row: OutputRow) -> RowModel {
    (
        row.source_line_number,
        span_pieces(row.source_spans@),
        row.destination_line_number,
        span_pieces(row.destination_spans@),
        row.is_changed,
        row.is_moved,
    )
}

/// The visual lines of one side of a row: none when the side has no line.
pub open spec fn side_lines(number: Option<usize>, pieces: Seq<Piece>, width: int) -> Seq<(Seq<Piece>, int)> {
    if number is None {
        seq![]
    } else {
        wrap_lines(pieces, width)
    }
}

/// How many visual lines a row takes: as many as its longer side, and at
/// least one.
pub open spec fn visual_count(row: RowModel, cw: int) -> int {
    let l = side_lines(row.0, row.1, cw).len() as int;
    let r = side_lines(row.2, row.3, cw).len() as int;
    let m = if l >= r {
        l
    } else {
        r
    };
    if m >= 1 {
        m
    } else {
        1
    }
}

/// The left content of visual line `v`: dots for an absent line, else the
/// wrapped text padded to the column width, or blanks past its end.
pub open spec fn left_cell(row: RowModel, cw: int, v: int) -> Seq<char> {
    let lines = side_lines(row.0, row.1, cw);
    if row.0 is None {
        repeat_char('•', cw as nat)
    } else if v < lines.len() {
        pieces_text(lines[v].0) + repeat_char(
            ' ',
            (if cw > lines[v].1 {
                cw - lines[v].1
            } else {
                0
            }) as nat,
        )
    } else {
        repeat_char(' ', cw as nat)
    }
}

/// The right content of visual line `v`: dots for an absent line, else the
/// wrapped text, or nothing past its end.
pub open spec fn right_cell(row: RowModel, cw: int, v: int) -> Seq<char> {
    let lines = side_lines(row.2, row.3, cw);
    if row.2 is None {
        repeat_char('•', cw as nat)
    } else if v < lines.len() {
        pieces_text(lines[v].0)
    } else {
        seq![]
    }
}

/// The column separator with its surrounding blanks.
pub open spec fn bar() -> Seq<char> {
    seq![' ', '│', ' ']
}

/// Visual line `v` of a row.
pub open spec fn row_line(row: RowModel, lw: int, cw: int, v: int) -> Seq<char> {
    number_plain(row.0, v, lw as nat) + bar() + left_cell(row, cw, v) + bar() + number_plain(row.2, v, lw as nat)
        + bar() + right_cell(row, cw, v) + seq!['\n']
}

/// The first `v` visual lines of a row.
pub open spec fn row_lines(row: RowModel, lw: int, cw: int, v: int) -> Seq<char>
    decreases v,
{
    if v <= 0 {
        seq![]
    } else {
        row_lines(row, lw, cw, v - 1) + row_line(row, lw, cw, v - 1)
    }
}

/// A row as it reads once colors are stripped.
pub open spec fn row_plain(row: RowModel, lw: int, cw: int) -> Seq<char> {
    row_lines(row, lw, cw, visual_count(row, cw))
}

/// No wrapped piece of the lines holds an escape.
pub open spec fn lines_clean(lines: Seq<(Seq<Piece>, int)>) -> bool {
    forall|v: int| 0 <= v < lines.len() ==> pieces_clean(#[trigger] lines[v].0)
}

/// No text a row draws holds an escape.
pub open spec fn row_clean(row: RowModel, cw: int) -> bool {
    &&& lines_clean(side_lines(row.0, row.1, cw))
    &&& lines_clean(side_lines(row.2, row.3, cw))
}


/// Appends the visual lines of one row.
#[verifier::rlimit(100)]
pub fn render_row(row: &OutputRow, line_number_width: usize, content_width: usize, output: &mut String)
    requires
        content_width > 0,
    ensures
        row_clean(row_model(*row), content_width as int) ==> extends(
            old(output)@,
            final(output)@,
            row_plain(row_model(*row), line_number_width as int, content_width as int),
        ),
        old(output)@.is_prefix_of(final(output)@),
        row_colors_held(final(output)@, row_model(*row), content_width as int),
        row_numbers_held(final(output)@, row_model(*row), line_number_width as int),
{
    let lw = line_number_width;
    let cw = content_width;
    let ghost m = row_model(*row);
    let ghost clean = row_clean(m, cw as int);
    let left_visual_lines = if row.source_line_number.is_none() {
        Vec::new()
    } else {
        wrap_spans(row.source_spans.as_slice(), cw)
    };
    let right_visual_lines = if row.destination_line_number.is_none() {
        Vec::new()
    } else {
        wrap_spans(row.destination_spans.as_slice(), cw)
    };
    let ghost lmodel = side_lines(m.0, m.1, cw as int);
    let ghost rmodel = side_lines(m.2, m.3, cw as int);
    proof {
        if row.source_line_number is None {
            assert(left_visual_lines@ =~= Seq::<(Vec<ColoredSpan>, usize)>::empty());
        }
        if row.destination_line_number is None {
            assert(right_visual_lines@ =~= Seq::<(Vec<ColoredSpan>, usize)>::empty());
        }
        assert(wrapped_is(left_visual_lines@, lmodel));
        assert(wrapped_is(right_visual_lines@, rmodel));
    }
    let mut num_visual = left_visual_lines.len();
    if right_visual_lines.len() > num_visual {
        num_visual = right_visual_lines.len();
    }
    if num_visual < 1 {
        num_visual = 1;
    }
    let separator = dimmed_text("│");
    proof {
        reveal_strlit("│");
        assert("│"@ =~= seq!['│']);
        assert(code_ok(seq!['2']));
        lemma_repeat_clean('│', 1);
        assert(repeat_char('│', 1) =~= seq!['│']);
        lemma_shows_painted(separator@, seq!['│'], seq!['2']);
        lemma_extends_refl(output@);
    }
    let ghost start = output@;
    let mut v: usize = 0;
    while v < num_visual
        invariant
            v <= num_visual,
            m == row_model(*row),
            num_visual == visual_count(m, cw as int),
            cw > 0,
            clean == row_clean(m, cw as int),
            wrapped_is(left_visual_lines@, lmodel),
            wrapped_is(right_visual_lines@, rmodel),
            lmodel == side_lines(m.0, m.1, cw as int),
            rmodel == side_lines(m.2, m.3, cw as int),
            shows(separator@, seq!['│']),
            clean ==> extends(start, output@, row_lines(m, lw as int, cw as int, v as int)),
            start.is_prefix_of(output@),
            side_held(output@, lmodel, v as int),
            side_held(output@, rmodel, v as int),
            v > 0 ==> row_numbers_held(output@, m, lw as int),
            m.5 == row.is_moved,
        decreases num_visual - v,
    {
        let colored_left_number = number_cell(row.source_line_number, v, row.is_moved, lw);
        let colored_right_number = number_cell(row.destination_line_number, v, row.is_moved, lw);

        // Left content.
        let left_padded = if row.source_line_number.is_none() {
            absent_fill(cw)
        } else if v < left_visual_lines.len() {
            let rendered = render_spans(left_visual_lines[v].0.as_slice());
            proof {
                assert(span_pieces(left_visual_lines@[v as int].0@) == lmodel[v as int].0);
                lemma_rendered_holds(rendered@, left_visual_lines@[v as int].0@, lmodel[v as int].0);
            }
            let vis_len = left_visual_lines[v].1;
            let padding = if cw > vis_len {
                cw - vis_len
            } else {
                0
            };
            let mut cell = rendered;
            let ghost r0 = cell@;
            push_repeated(&mut cell, ' ', padding);
            proof {
                if clean {
                    assert(pieces_clean(lmodel[v as int].0));
                    assert(span_pieces(left_visual_lines@[v as int].0@) == lmodel[v as int].0);
                    lemma_repeat_clean(' ', padding as nat);
                    lemma_shows_plain(repeat_char(' ', padding as nat));
                    lemma_shows_concat(r0, pieces_text(lmodel[v as int].0), repeat_char(' ', padding as nat), repeat_char(' ', padding as nat));
                    assert(left_visual_lines@[v as int].1 == lmodel[v as int].1);
                }
                assert forall|k: int| 0 <= k < lmodel[v as int].0.len() implies holds_painted(
                    cell@,
                    (#[trigger] lmodel[v as int].0[k]).0,
                    lmodel[v as int].0[k].1,
                ) by {
                    lemma_holds_extended(Seq::<char>::empty(), r0, repeat_char(' ', padding as nat), lmodel[v as int].0[k].0, lmodel[v as int].0[k].1);
                    assert(Seq::<char>::empty() + r0 + repeat_char(' ', padding as nat) =~= cell@);
                }
            }
            cell
        } else {
            let mut blank = String::new();
            push_repeated(&mut blank, ' ', cw);
            proof {
                lemma_repeat_clean(' ', cw as nat);
                lemma_shows_plain(blank@);
                assert(blank@ =~= repeat_char(' ', cw as nat));
            }
            blank
        };

        // Right content.
        let right_content = if row.destination_line_number.is_none() {
            absent_fill(cw)
        } else if v < right_visual_lines.len() {
            let rendered = render_spans(right_visual_lines[v].0.as_slice());
            proof {
                assert(span_pieces(right_visual_lines@[v as int].0@) == rmodel[v as int].0);
                lemma_rendered_holds(rendered@, right_visual_lines@[v as int].0@, rmodel[v as int].0);
                if clean {
                    assert(pieces_clean(rmodel[v as int].0));
                    assert(span_pieces(right_visual_lines@[v as int].0@) == rmodel[v as int].0);
                }
            }
            rendered
        } else {
            proof {
                lemma_shows_plain(Seq::<char>::empty());
            }
            String::new()
        };

        let mut line = String::new();
        proof {
            lemma_shows_plain(Seq::<char>::empty());
            assert(line@ =~= Seq::<char>::empty());
        }
        let ghost sp: Seq<char> = seq![' '];
        let ghost vbar: Seq<char> = seq!['│'];
        let ghost nl = number_plain(row.source_line_number, v as int, lw as nat);
        let ghost nr = number_plain(row.destination_line_number, v as int, lw as nat);
        let ghost lc = left_cell(m, cw as int, v as int);
        let ghost rc = right_cell(m, cw as int, v as int);
        let ghost before_lnum = line@;
        append_shown(&mut line, colored_left_number.as_str(), Ghost(clean), Ghost(Seq::<char>::empty()), Ghost(nl));
        let ghost after_lnum = line@;
        proof {
            assert(Seq::<char>::empty() + nl =~= nl);
        }
        append_char(&mut line, ' ', Ghost(clean), Ghost(nl));
        append_shown(&mut line, separator.as_str(), Ghost(clean), Ghost(nl + sp), Ghost(vbar));
        append_char(&mut line, ' ', Ghost(clean), Ghost(nl + sp + vbar));
        proof {
            assert(nl + seq![' '] + seq!['│'] + seq![' '] =~= nl + bar());
        }
        let ghost before_left = line@;
        append_shown(&mut line, left_padded.as_str(), Ghost(clean), Ghost(nl + bar()), Ghost(lc));
        let ghost after_left = line@;
        append_char(&mut line, ' ', Ghost(clean), Ghost(nl + bar() + lc));
        append_shown(&mut line, separator.as_str(), Ghost(clean), Ghost(nl + bar() + lc + sp), Ghost(vbar));
        append_char(&mut line, ' ', Ghost(clean), Ghost(nl + bar() + lc + sp + vbar));
        proof {
            assert(nl + bar() + lc + seq![' '] + seq!['│'] + seq![' '] =~= nl + bar() + lc + bar());
        }
        let ghost before_rnum = line@;
        append_shown(&mut line, colored_right_number.as_str(), Ghost(clean), Ghost(nl + bar() + lc + bar()), Ghost(nr));
        let ghost after_rnum = line@;
        append_char(&mut line, ' ', Ghost(clean), Ghost(nl + bar() + lc + bar() + nr));
        append_shown(&mut line, separator.as_str(), Ghost(clean), Ghost(nl + bar() + lc + bar() + nr + sp), Ghost(vbar));
        append_char(&mut line, ' ', Ghost(clean), Ghost(nl + bar() + lc + bar() + nr + sp + vbar));
        proof {
            assert(nl + bar() + lc + bar() + nr + seq![' '] + seq!['│'] + seq![' '] =~= nl + bar() + lc + bar() + nr + bar());
        }
        let ghost before_right = line@;
        append_shown(&mut line, right_content.as_str(), Ghost(clean), Ghost(nl + bar() + lc + bar() + nr + bar()), Ghost(rc));
        append_char(&mut line, '\n', Ghost(clean), Ghost(nl + bar() + lc + bar() + nr + bar() + rc));
        let ghost before_out = output@;
        output.append(line.as_str());
        proof {
            let tail = line@.subrange(after_left.len() as int, line@.len() as int);
            assert(line@ =~= before_left + left_padded@ + tail);
            assert(line@ =~= before_right + right_content@ + seq!['\n']);
            assert(output@ == before_out + line@);
            if row.source_line_number.is_some() && v < left_visual_lines@.len() {
                assert forall|k: int| 0 <= k < lmodel[v as int].0.len() implies holds_painted(
                    output@,
                    (#[trigger] lmodel[v as int].0[k]).0,
                    lmodel[v as int].0[k].1,
                ) by {
                    let (tx, cl) = lmodel[v as int].0[k];
                    lemma_holds_extended(before_left, left_padded@, tail, tx, cl);
                    lemma_holds_extended(before_out, line@, Seq::<char>::empty(), tx, cl);
                    assert(before_out + line@ + Seq::<char>::empty() =~= output@);
                }
            }
            if row.destination_line_number.is_some() && v < right_visual_lines@.len() {
                assert forall|k: int| 0 <= k < rmodel[v as int].0.len() implies holds_painted(
                    output@,
                    (#[trigger] rmodel[v as int].0[k]).0,
                    rmodel[v as int].0[k].1,
                ) by {
                    let (tx, cl) = rmodel[v as int].0[k];
                    lemma_holds_extended(before_right, right_content@, seq!['\n'], tx, cl);
                    lemma_holds_extended(before_out, line@, Seq::<char>::empty(), tx, cl);
                    assert(before_out + line@ + Seq::<char>::empty() =~= output@);
                }
            }
            if v == 0 {
                let code = number_code(m.5);
                if row.source_line_number.is_some() {
                    let tl = line@.subrange(after_lnum.len() as int, line@.len() as int);
                    assert(line@ =~= before_lnum + colored_left_number@ + tl);
                    assert(pieced(colored_left_number@, Seq::<char>::empty(), colored_left_number@, Seq::<char>::empty()));
                    lemma_styled_extended(before_lnum, colored_left_number@, tl, number_plain(m.0, 0, lw as nat), code);
                    lemma_styled_extended(before_out, line@, Seq::<char>::empty(), number_plain(m.0, 0, lw as nat), code);
                    assert(before_out + line@ + Seq::<char>::empty() =~= output@);
                }
                if row.destination_line_number.is_some() {
                    let tr = line@.subrange(after_rnum.len() as int, line@.len() as int);
                    assert(line@ =~= before_rnum + colored_right_number@ + tr);
                    assert(pieced(colored_right_number@, Seq::<char>::empty(), colored_right_number@, Seq::<char>::empty()));
                    lemma_styled_extended(before_rnum, colored_right_number@, tr, number_plain(m.2, 0, lw as nat), code);
                    lemma_styled_extended(before_out, line@, Seq::<char>::empty(), number_plain(m.2, 0, lw as nat), code);
                    assert(before_out + line@ + Seq::<char>::empty() =~= output@);
                }
            } else {
                lemma_row_numbers_extended(Seq::<char>::empty(), before_out, line@, m, lw as int);
            }
            lemma_side_held_extended(Seq::<char>::empty(), before_out, line@, lmodel, v as int);
            lemma_side_held_extended(Seq::<char>::empty(), before_out, line@, rmodel, v as int);
            assert(Seq::<char>::empty() + before_out + line@ =~= output@);
            assert forall|w: int, k: int|
                0 <= w < v + 1 && w < lmodel.len() && 0 <= k < lmodel[w].0.len() implies holds_painted(
                    output@,
                    (#[trigger] lmodel[w].0[k]).0,
                    lmodel[w].0[k].1,
                ) by {
                if w < v {
                } else {
                    assert(row.source_line_number.is_some());
                    assert(v < left_visual_lines@.len());
                }
            }
            assert forall|w: int, k: int|
                0 <= w < v + 1 && w < rmodel.len() && 0 <= k < rmodel[w].0.len() implies holds_painted(
                    output@,
                    (#[trigger] rmodel[w].0[k]).0,
                    rmodel[w].0[k].1,
                ) by {
                if w < v {
                } else {
                    assert(row.destination_line_number.is_some());
                    assert(v < right_visual_lines@.len());
                }
            }
            assert(start.is_prefix_of(output@)) by {
                assert(output@.subrange(0, start.len() as int) =~= before_out.subrange(0, start.len() as int));
            }
            assert(nl + bar() + lc + bar() + nr + bar() + rc + seq!['\n'] == row_line(m, lw as int, cw as int, v as int));
            if clean {
                lemma_extends_append(before_out, line@, row_line(m, lw as int, cw as int, v as int));
                lemma_extends_trans(start, before_out, output@, row_lines(m, lw as int, cw as int, v as int), row_line(m, lw as int, cw as int, v as int));
            }
        }
        v += 1;
    }
}


/// The corner between two columns of the separator line.
pub open spec fn cross() -> Seq<char> {
    seq!['─', '┼', '─']
}

/// The separator line between hunks, as it reads once colors are stripped.
pub open spec fn separator_plain(lw: nat, cw: nat) -> Seq<char> {
    repeat_char('─', lw) + cross() + repeat_char('─', cw) + cross() + repeat_char('─', lw) + cross() + repeat_char(
        '─',
        cw,
    ) + seq!['\n']
}

/// Appends a dimmed separator line.
pub fn render_separator(line_number_width: usize, content_width: usize, output: &mut String)
    ensures
        extends(old(output)@, final(output)@, separator_plain(line_number_width as nat, content_width as nat)),
        old(output)@.is_prefix_of(final(output)@),
{
    let mut raw = String::new();
    push_repeated(&mut raw, '─', line_number_width);
    push_char(&mut raw, '─');
    push_char(&mut raw, '┼');
    push_char(&mut raw, '─');
    push_repeated(&mut raw, '─', content_width);
    push_char(&mut raw, '─');
    push_char(&mut raw, '┼');
    push_char(&mut raw, '─');
    push_repeated(&mut raw, '─', line_number_width);
    push_char(&mut raw, '─');
    push_char(&mut raw, '┼');
    push_char(&mut raw, '─');
    push_repeated(&mut raw, '─', content_width);
    let dimmed = dimmed_text(raw.as_str());
    let ghost before = output@;
    output.append(dimmed.as_str());
    let ghost mid = output@;
    push_char(output, '\n');
    proof {
        let lw = line_number_width as nat;
        let cw = content_width as nat;
        let body = repeat_char('─', lw) + cross() + repeat_char('─', cw) + cross() + repeat_char('─', lw) + cross()
            + repeat_char('─', cw);
        assert(raw@ =~= body);
        assert(no_escape(body)) by {
            if body.contains('\x1b') {
                let i = choose|i: int| 0 <= i < body.len() && body[i] == '\x1b';
                assert(body[i] == '─' || body[i] == '┼');
            }
        }
        assert(code_ok(seq!['2']));
        lemma_shows_painted(dimmed@, body, seq!['2']);
        lemma_extends_append(before, dimmed@, body);
        lemma_repeat_clean('\n', 1);
        assert(repeat_char('\n', 1) =~= seq!['\n']);
        lemma_shows_plain(seq!['\n']);
        lemma_extends_append(mid, seq!['\n'], seq!['\n']);
        assert(output@ == mid + seq!['\n']);
        lemma_extends_trans(before, mid, output@, body, seq!['\n']);
        assert(body + seq!['\n'] =~= separator_plain(lw, cw));
        assert(output@.subrange(0, before.len() as int) =~= before);
    }
}

/// The header's label: the file name and the language in brackets, either
/// alone, or nothing.
pub open spec fn header_label(filename: Option<Seq<char>>, language_name: Option<Seq<char>>) -> Option<Seq<char>> {
    match (filename, language_name) {
        (Some(f), Some(l)) => Some(f + seq![' ', '['] + l + seq![']']),
        (Some(f), None) => Some(f),
        (None, Some(l)) => Some(seq!['['] + l + seq![']']),
        (None, None) => None,
    }
}

/// The full width of a view line: two number columns, two content columns
/// and three separators.
pub open spec fn total_width(lw: int, cw: int) -> int {
    lw + 3 + cw + 3 + lw + 3 + cw
}

/// The header line before its styling: the label after one blank, padded
/// to the full width (measured in bytes, as `str::len` counts them), or cut
/// to it when too long.
pub open spec fn header_text(label: Seq<char>, total: int) -> Seq<char> {
    let bytes = vstd::utf8::encode_utf8(label);
    let n: int = (bytes.len() as usize) as int;
    if n < total {
        seq![' '] + label + repeat_char(' ', (total - n - 1) as nat)
    } else {
        seq![' '] + vstd::utf8::decode_utf8(byte_slice(bytes, 0, total - 1))
    }
}

/// The header as it reads once colors are stripped: nothing without a
/// label.
pub open spec fn header_plain(filename: Option<Seq<char>>, language_name: Option<Seq<char>>, lw: int, cw: int) -> Seq<
    char,
> {
    match header_label(filename, language_name) {
        Some(label) => header_text(label, total_width(lw, cw)) + seq!['\n'],
        None => seq![],
    }
}

/// The text of an optional string.
pub open spec fn opt_text(s: Option<&str>) -> Option<Seq<char>> {
    match s {
        Some(t) => Some(t@),
        None => None,
    }
}

/// Render a file-info header line (filename and detected language).
pub fn render_file_header(
    filename: Option<&str>,
    language_name: Option<&str>,
    line_number_width: usize,
    content_width: usize,
    output: &mut String,
)
    requires
        2 * line_number_width + 2 * content_width + 9 <= usize::MAX,
    ensures
        header_label(opt_text(filename), opt_text(language_name)) is None ==> final(output)@ == old(output)@,
        no_escape(header_plain(opt_text(filename), opt_text(language_name), line_number_width as int, content_width as int))
            ==> extends(
            old(output)@,
            final(output)@,
            header_plain(opt_text(filename), opt_text(language_name), line_number_width as int, content_width as int),
        ),
{
    let mut label = String::new();
    match (filename, language_name) {
        (Some(f), Some(l)) => {
            label.append(f);
            push_char(&mut label, ' ');
            push_char(&mut label, '[');
            label.append(l);
            push_char(&mut label, ']');
        },
        (Some(f), None) => {
            label.append(f);
        },
        (None, Some(l)) => {
            push_char(&mut label, '[');
            label.append(l);
            push_char(&mut label, ']');
        },
        (None, None) => {
            proof {
                lemma_extends_refl(output@);
            }
            return;
        },
    }
    let ghost lab = header_label(opt_text(filename), opt_text(language_name)).unwrap();
    proof {
        assert(label@ =~= lab);
    }
    // Total width: line_num + " │ " + content + " │ " + line_num + " │ " + content
    let total = line_number_width + 3 + content_width + 3 + line_number_width + 3 + content_width;
    let mut padded = String::new();
    push_char(&mut padded, ' ');
    let label_len = label.as_str().len();
    if label_len < total {
        padded.append(label.as_str());
        push_repeated(&mut padded, ' ', total - label_len - 1);
    } else {
        let cut = slice_text(label.as_str(), 0, total - 1);
        padded.append(cut);
        proof {
            vstd::utf8::encode_utf8_decode_utf8(cut@);
        }
    }
    let styled = bold_dimmed_text(padded.as_str());
    let ghost before = output@;
    output.append(styled.as_str());
    let ghost mid = output@;
    push_char(output, '\n');
    proof {
        let text = header_text(lab, total as int);
        assert(padded@ =~= text);
        if no_escape(text + seq!['\n']) {
            assert(no_escape(text)) by {
                if text.contains('\x1b') {
                    let i = choose|i: int| 0 <= i < text.len() && text[i] == '\x1b';
                    assert((text + seq!['\n'])[i] == '\x1b');
                }
            }
            assert(code_ok(seq!['1', ';', '2']));
            lemma_shows_painted(styled@, text, seq!['1', ';', '2']);
            lemma_extends_append(before, styled@, text);
            lemma_repeat_clean('\n', 1);
            assert(repeat_char('\n', 1) =~= seq!['\n']);
            lemma_shows_plain(seq!['\n']);
            lemma_extends_append(mid, seq!['\n'], seq!['\n']);
            assert(output@ == mid + seq!['\n']);
            lemma_extends_trans(before, mid, output@, text, seq!['\n']);
        }
    }
}


// ---------------------------------------------------------------------------
// The whole view
// ---------------------------------------------------------------------------

/// All inputs needed to produce a side-by-side diff.
pub struct SideBySideInput<'a> {
    pub source_bytes: &'a [u8],
    pub destination_bytes: &'a [u8],
    pub source_tree: &'a Tree,
    pub destination_tree: &'a Tree,
    pub mapping: &'a Mapping,
    pub actions: &'a [Action],
    pub filename: Option<&'a str>,
    pub language_name: Option<&'a str>,
}

/// A line of a text: its characters, its start byte and its end byte.
pub type LineModel = (Seq<char>, int, int);

/// The colors of the source leaves: red when unmapped, yellow when updated.
pub open spec fn source_colors(t1: Seq<Node>, fwd: Map<usize, usize>, actions: Seq<Action>) -> Seq<Option<SpanColor>> {
    Seq::new(
        t1.len(),
        |i: int|
            leaf_color(
                t1,
                i,
                !fwd.contains_key(i as usize),
                is_updated_node(actions, i as usize),
                SpanColor::Deleted,
            ),
    )
}

/// The colors of the destination leaves: green when unmapped, yellow when
/// their source counterpart is updated.
pub open spec fn destination_colors(t2: Seq<Node>, bwd: Map<usize, usize>, actions: Seq<Action>) -> Seq<
    Option<SpanColor>,
> {
    Seq::new(
        t2.len(),
        |i: int|
            leaf_color(
                t2,
                i,
                !bwd.contains_key(i as usize),
                bwd.contains_key(i as usize) && is_updated_node(actions, bwd[i as usize]),
                SpanColor::Inserted,
            ),
    )
}

/// The pieces a changed line is drawn with.
pub open spec fn line_pieces(nodes: Seq<Node>, colors: Seq<Option<SpanColor>>, line: LineModel) -> Seq<Piece> {
    let bytes = vstd::utf8::encode_utf8(line.0);
    line_stretches(nodes, colors, line.1, line.2, (bytes.len() as usize) as int).map_values(
        |st: ByteSpan| (vstd::utf8::decode_utf8(byte_slice(bytes, st.0 as int, st.1 as int)), st.2),
    )
}

/// The row a shape is drawn as.
pub open spec fn shape_row(
    shape: RowShape,
    src: Seq<LineModel>,
    dst: Seq<LineModel>,
    moved: Set<usize>,
    t1: Seq<Node>,
    c1: Seq<Option<SpanColor>>,
    t2: Seq<Node>,
    c2: Seq<Option<SpanColor>>,
) -> RowModel {
    match shape {
        RowShape::Deleted(s) => (
            Some((s + 1) as usize),
            seq![(src[s as int].0, SpanColor::Deleted)],
            None,
            seq![],
            true,
            false,
        ),
        RowShape::Inserted(d) => (
            None,
            seq![],
            Some((d + 1) as usize),
            seq![(dst[d as int].0, SpanColor::Inserted)],
            true,
            false,
        ),
        RowShape::Paired(s, d) => {
            let changed = src[s as int].0 != dst[d as int].0;
            (
                Some((s + 1) as usize),
                if changed {
                    line_pieces(t1, c1, src[s as int])
                } else {
                    seq![(src[s as int].0, SpanColor::Unchanged)]
                },
                Some((d + 1) as usize),
                if changed {
                    line_pieces(t2, c2, dst[d as int])
                } else {
                    seq![(dst[d as int].0, SpanColor::Unchanged)]
                },
                changed,
                moved.contains(d),
            )
        },
    }
}

/// The rows of the view for a line pairing.
pub open spec fn view_rows(
    pairing: Map<usize, usize>,
    moved: Set<usize>,
    src: Seq<LineModel>,
    dst: Seq<LineModel>,
    t1: Seq<Node>,
    c1: Seq<Option<SpanColor>>,
    t2: Seq<Node>,
    c2: Seq<Option<SpanColor>>,
) -> Seq<RowModel> {
    row_shapes(pairing, src.len(), dst.len()).map_values(
        |sh: RowShape| shape_row(sh, src, dst, moved, t1, c1, t2, c2),
    )
}

/// The width of the line-number columns: the digits of the largest line
/// number, at least three.
pub open spec fn number_width(src_count: nat, dst_count: nat) -> int {
    let m = if src_count >= dst_count {
        src_count
    } else {
        dst_count
    };
    let d = decimal_spec(m).len() as int;
    if d >= 3 {
        d
    } else {
        3
    }
}

/// The width of each content column: half of what the terminal leaves
/// beside the number columns and separators, or fifty columns without a
/// terminal or when it is too narrow.
pub open spec fn content_width_for(terminal: Option<u16>, lw: int) -> int {
    match terminal {
        Some(w) => {
            let chrome = 2 * lw + 9;
            if w > chrome + 2 {
                (w - chrome) / 2
            } else {
                50
            }
        },
        None => 50,
    }
}

/// Rows one after the other.
pub open spec fn rows_plain(rows: Seq<RowModel>, lw: int, cw: int) -> Seq<char>
    decreases rows.len(),
{
    if rows.len() == 0 {
        seq![]
    } else {
        rows_plain(rows.drop_last(), lw, cw) + row_plain(rows.last(), lw, cw)
    }
}

/// The first `k` hunks, separated by separator lines.
pub open spec fn hunks_plain(rows: Seq<RowModel>, hunks: Seq<(usize, usize)>, lw: int, cw: int, k: int) -> Seq<char>
    decreases k,
{
    if k <= 0 {
        seq![]
    } else {
        hunks_plain(rows, hunks, lw, cw, k - 1) + (if k - 1 > 0 {
            separator_plain(lw as nat, cw as nat)
        } else {
            seq![]
        }) + rows_plain(rows.subrange(hunks[k - 1].0 as int, hunks[k - 1].1 as int), lw, cw)
    }
}

/// Which rows changed.
pub open spec fn model_changed(rows: Seq<RowModel>) -> Seq<bool> {
    rows.map_values(|r: RowModel| r.4)
}

/// The view as it reads once colors are stripped: the header and a
/// separator when there is a label, then the hunks with three rows of
/// context around each change.
pub open spec fn view_plain(
    rows: Seq<RowModel>,
    lw: int,
    cw: int,
    filename: Option<Seq<char>>,
    language_name: Option<Seq<char>>,
) -> Seq<char> {
    let hunks = hunks_upto(model_changed(rows), 3, rows.len() as int);
    (if header_label(filename, language_name) is Some {
        header_plain(filename, language_name, lw, cw) + separator_plain(lw as nat, cw as nat)
    } else {
        seq![]
    }) + hunks_plain(rows, hunks, lw, cw, hunks.len() as int)
}

/// No text the view draws holds an escape.
pub open spec fn view_clean(
    rows: Seq<RowModel>,
    lw: int,
    cw: int,
    filename: Option<Seq<char>>,
    language_name: Option<Seq<char>>,
) -> bool {
    &&& forall|k: int| 0 <= k < rows.len() ==> row_clean(#[trigger] rows[k], cw)
    &&& no_escape(header_plain(filename, language_name, lw, cw))
}

/// `out` is the side-by-side view of the input for the given line pairing
/// and terminal width: the moved lines are those of the pairing's inverted
/// blocks, once colors are stripped the output reads as the plain view
/// whenever no drawn text holds an escape of its own, and with no header and
/// no changed line nothing at all is drawn.
pub open spec fn side_by_side_of(
    out: Seq<char>,
    source_bytes: Seq<u8>,
    destination_bytes: Seq<u8>,
    t1: Seq<Node>,
    t2: Seq<Node>,
    fwd: Map<usize, usize>,
    bwd: Map<usize, usize>,
    actions: Seq<Action>,
    filename: Option<Seq<char>>,
    language_name: Option<Seq<char>>,
    terminal: Option<u16>,
    pairing: Map<usize, usize>,
    moved: Set<usize>,
) -> bool {
    let src = text_lines(lossy_text(source_bytes));
    let dst = text_lines(lossy_text(destination_bytes));
    let rows = view_rows(
        pairing,
        moved,
        src,
        dst,
        t1,
        source_colors(t1, fwd, actions),
        t2,
        destination_colors(t2, bwd, actions),
    );
    let lw = number_width(src.len(), dst.len());
    let cw = content_width_for(terminal, lw);
    &&& pairing_ok(pairing, dst.len(), src.len())
    &&& exists|sl: Seq<FileLine>, dl: Seq<FileLine>|
        #[trigger] lines_model(sl, src) && #[trigger] lines_model(dl, dst) && pairing_from_votes(
            t1,
            t2,
            bwd,
            sl,
            dl,
            pairing,
        )
    &&& forall|d: usize| #[trigger] moved.contains(d) <==> moved_line(pairing, dst.len(), d)
    &&& view_clean(rows, lw, cw, filename, language_name) ==> shows(
        out,
        view_plain(rows, lw, cw, filename, language_name),
    )
    &&& header_label(filename, language_name) is None && hunks_upto(model_changed(rows), 3, rows.len() as int).len()
        == 0 ==> out.len() == 0
    &&& hunks_colors_held(
        out,
        rows,
        hunks_upto(model_changed(rows), 3, rows.len() as int),
        hunks_upto(model_changed(rows), 3, rows.len() as int).len() as int,
        cw,
        lw,
    )
}

/// Ten to the power `k`.
pub open spec fn pow10(k: nat) -> nat
    decreases k,
{
    if k == 0 {
        1
    } else {
        10 * pow10((k - 1) as nat)
    }
}

/// A number below `10^k` has at most `k` digits.
proof fn lemma_decimal_len(n: nat, k: nat)
    requires
        k >= 1,
        n < pow10(k),
    ensures
        decimal_spec(n).len() <= k,
    decreases n,
{
    if n >= 10 {
        assert(k >= 2) by {
            if k == 1 {
                assert(pow10(1) == 10 * pow10(0));
            }
        }
        let k1 = (k - 1) as nat;
        assert(pow10(k) == 10 * pow10(k1));
        assert(n / 10 < pow10(k1)) by (nonlinear_arith)
            requires
                n < 10 * pow10(k1),
        ;
        lemma_decimal_len(n / 10, k1);
    }
}

/// A `usize` has at most twenty digits.
proof fn lemma_usize_digits(n: usize)
    ensures
        decimal_spec(n as nat).len() <= 20,
{
    reveal_with_fuel(pow10, 21);
    assert(pow10(20) == 100000000000000000000nat);
    lemma_decimal_len(n as nat, 20);
}


/// The lines a shape names exist.
pub open spec fn shape_in(shape: RowShape, src_count: nat, dst_count: nat) -> bool {
    match shape {
        RowShape::Deleted(s) => s < src_count,
        RowShape::Inserted(d) => d < dst_count,
        RowShape::Paired(s, d) => s < src_count && d < dst_count,
    }
}

proof fn lemma_skipped_in(m: Map<usize, usize>, e: Set<usize>, from: int, to: int, src_count: nat, dst_count: nat)
    requires
        0 <= from,
        to <= src_count,
    ensures
        forall|k: int|
            0 <= k < skipped(m, e, from, to).len() ==> shape_in(#[trigger] skipped(m, e, from, to)[k], src_count, dst_count),
    decreases to - from,
{
    if from < to {
        lemma_skipped_in(m, e, from, to - 1, src_count, dst_count);
        let prev = skipped(m, e, from, to - 1);
        let now = skipped(m, e, from, to);
        assert forall|k: int| 0 <= k < now.len() implies shape_in(#[trigger] now[k], src_count, dst_count) by {
            if k < prev.len() {
                assert(now[k] == prev[k]);
            }
        }
    }
}

proof fn lemma_rows_state_in(m: Map<usize, usize>, k: int, src_count: nat, dst_count: nat)
    requires
        pairing_ok(m, dst_count, src_count),
        k <= dst_count,
    ensures
        forall|j: int|
            0 <= j < rows_state(m, k).0.len() ==> shape_in(#[trigger] rows_state(m, k).0[j], src_count, dst_count),
        rows_state(m, k).2 matches Some(l) ==> l < src_count,
    decreases k,
{
    if k > 0 {
        lemma_rows_state_in(m, k - 1, src_count, dst_count);
        let (shapes, emitted, last) = rows_state(m, k - 1);
        let d = (k - 1) as usize;
        if m.contains_key(d) {
            let s = m[d];
            let gap_start: int = match last {
                Some(l) => l + 1,
                None => 0,
            };
            if s >= gap_start {
                lemma_skipped_in(m, emitted, gap_start, s as int, src_count, dst_count);
            }
            let gap = if s >= gap_start {
                skipped(m, emitted, gap_start, s as int)
            } else {
                seq![]
            };
            let now = shapes + gap.push(RowShape::Paired(s, d));
            assert forall|j: int| 0 <= j < now.len() implies shape_in(#[trigger] now[j], src_count, dst_count) by {
                if j < shapes.len() {
                    assert(now[j] == shapes[j]);
                } else if j < shapes.len() + gap.len() {
                    assert(now[j] == gap[j - shapes.len()]);
                }
            }
        } else {
            let now = shapes.push(RowShape::Inserted(d));
            assert forall|j: int| 0 <= j < now.len() implies shape_in(#[trigger] now[j], src_count, dst_count) by {
                if j < shapes.len() {
                    assert(now[j] == shapes[j]);
                }
            }
        }
    }
}

/// Every row of the view names existing lines.
pub proof fn lemma_row_shapes_in(m: Map<usize, usize>, src_count: nat, dst_count: nat)
    requires
        pairing_ok(m, dst_count, src_count),
    ensures
        forall|k: int|
            0 <= k < row_shapes(m, src_count, dst_count).len() ==> shape_in(
                #[trigger] row_shapes(m, src_count, dst_count)[k],
                src_count,
                dst_count,
            ),
{
    lemma_rows_state_in(m, dst_count as int, src_count, dst_count);
    let (shapes, emitted, _) = rows_state(m, dst_count as int);
    lemma_skipped_in(m, emitted, 0, src_count as int, src_count, dst_count);
    let all = row_shapes(m, src_count, dst_count);
    assert forall|k: int| 0 <= k < all.len() implies shape_in(#[trigger] all[k], src_count, dst_count) by {
        if k < shapes.len() {
            assert(all[k] == shapes[k]);
        } else {
            assert(all[k] == skipped(m, emitted, 0, src_count as int)[k - shapes.len()]);
        }
    }
}

/// The file lines stand for the line models.
pub open spec fn lines_model(lines: Seq<FileLine>, model: Seq<LineModel>) -> bool {
    &&& lines.len() == model.len()
    &&& forall|k: int|
        0 <= k < lines.len() ==> {
            &&& (#[trigger] lines[k]).text@ == model[k].0
            &&& lines[k].start_byte == model[k].1
            &&& lines[k].end_byte == model[k].2
        }
}

/// Spans cut from a line according to its stretches are the line's pieces.
proof fn lemma_spans_pieces(spans: Seq<ColoredSpan>, text: &str, stretches: Seq<ByteSpan>)
    requires
        spans_are(spans, text.spec_bytes(), stretches),
    ensures
        span_pieces(spans) == stretches.map_values(
            |st: ByteSpan|
                (
                    vstd::utf8::decode_utf8(byte_slice(vstd::utf8::encode_utf8(text@), st.0 as int, st.1 as int)),
                    st.2,
                ),
        ),
{
    let want = stretches.map_values(
        |st: ByteSpan|
            (
                vstd::utf8::decode_utf8(byte_slice(vstd::utf8::encode_utf8(text@), st.0 as int, st.1 as int)),
                st.2,
            ),
    );
    assert forall|k: int| 0 <= k < spans.len() implies span_pieces(spans)[k] == want[k] by {
        vstd::utf8::encode_utf8_decode_utf8(spans[k].text@);
    }
    assert(span_pieces(spans) =~= want);
}

/// Rows drawn from shapes stand for the shapes' row models.
proof fn lemma_rows_model(
    rows: Seq<OutputRow>,
    shapes: Seq<RowShape>,
    src_lines: Seq<FileLine>,
    dst_lines: Seq<FileLine>,
    moved: Set<usize>,
    context: DiffContext,
    src: Seq<LineModel>,
    dst: Seq<LineModel>,
)
    requires
        rows_are(rows, shapes, src_lines, dst_lines, moved, context),
        lines_model(src_lines, src),
        lines_model(dst_lines, dst),
        forall|k: int| 0 <= k < shapes.len() ==> shape_in(#[trigger] shapes[k], src.len(), dst.len()),
    ensures
        rows.map_values(|r: OutputRow| row_model(r)) == shapes.map_values(
            |sh: RowShape|
                shape_row(
                    sh,
                    src,
                    dst,
                    moved,
                    context.source_tree.arena(),
                    context.source_leaf_colors@,
                    context.destination_tree.arena(),
                    context.destination_leaf_colors@,
                ),
        ),
{
    let t1 = context.source_tree.arena();
    let c1 = context.source_leaf_colors@;
    let t2 = context.destination_tree.arena();
    let c2 = context.destination_leaf_colors@;
    assert forall|k: int| 0 <= k < rows.len() implies row_model(#[trigger] rows[k]) == shape_row(
        shapes[k],
        src,
        dst,
        moved,
        t1,
        c1,
        t2,
        c2,
    ) by {
        let row = rows[k];
        assert(row_is(row, shapes[k], src_lines, dst_lines, moved, context));
        assert(shape_in(shapes[k], src.len(), dst.len()));
        match shapes[k] {
            RowShape::Deleted(s) => {
                assert(src_lines[s as int].text@ == src[s as int].0);
                assert(span_pieces(row.source_spans@) =~= seq![(src[s as int].0, SpanColor::Deleted)]);
                assert(span_pieces(row.destination_spans@) =~= Seq::<Piece>::empty());
            },
            RowShape::Inserted(d) => {
                assert(dst_lines[d as int].text@ == dst[d as int].0);
                assert(span_pieces(row.source_spans@) =~= Seq::<Piece>::empty());
                assert(span_pieces(row.destination_spans@) =~= seq![(dst[d as int].0, SpanColor::Inserted)]);
            },
            RowShape::Paired(s, d) => {
                let sl = src_lines[s as int];
                let dl = dst_lines[d as int];
                assert(sl.text@ == src[s as int].0);
                assert(dl.text@ == dst[d as int].0);
                if row.is_changed {
                    lemma_spans_pieces(
                        row.source_spans@,
                        sl.text,
                        line_stretches(t1, c1, sl.start_byte as int, sl.end_byte as int, sl.text.len() as int),
                    );
                    lemma_spans_pieces(
                        row.destination_spans@,
                        dl.text,
                        line_stretches(t2, c2, dl.start_byte as int, dl.end_byte as int, dl.text.len() as int),
                    );
                    assert(span_pieces(row.source_spans@) == line_pieces(t1, c1, src[s as int]));
                    assert(span_pieces(row.destination_spans@) == line_pieces(t2, c2, dst[d as int]));
                } else {
                    assert(span_pieces(row.source_spans@) =~= seq![(src[s as int].0, SpanColor::Unchanged)]);
                    assert(span_pieces(row.destination_spans@) =~= seq![(dst[d as int].0, SpanColor::Unchanged)]);
                }
            },
        }
    }
    assert(rows.map_values(|r: OutputRow| row_model(r)) =~= shapes.map_values(
        |sh: RowShape| shape_row(sh, src, dst, moved, t1, c1, t2, c2),
    ));
}


/// Every hunk is a range of rows, and the last one ends within `context`
/// rows of the rows seen.
pub proof fn lemma_hunks_bounds(changed: Seq<bool>, context: int, k: int)
    requires
        0 <= k <= changed.len() <= usize::MAX,
        context >= 0,
    ensures
        forall|j: int|
            0 <= j < hunks_upto(changed, context, k).len() ==> (#[trigger] hunks_upto(changed, context, k)[j]).0
                <= hunks_upto(changed, context, k)[j].1 <= changed.len(),
        hunks_upto(changed, context, k).len() > 0 ==> hunks_upto(changed, context, k).last().1 <= k + context,
    decreases k,
{
    if k > 0 {
        lemma_hunks_bounds(changed, context, k - 1);
        let prev = hunks_upto(changed, context, k - 1);
        let now = hunks_upto(changed, context, k);
        let i = k - 1;
        if changed[i] {
            assert forall|j: int| 0 <= j < now.len() implies (#[trigger] now[j]).0 <= now[j].1 <= changed.len() by {
                if j < prev.len() - 1 || (j < prev.len() && now.len() > prev.len()) {
                    assert(now[j] == prev[j]);
                }
            }
        }
    }
}

/// The width of each content column for a terminal `terminal` columns
/// wide, if known.
fn content_width(terminal: Option<u16>, line_number_width: usize) -> (cw: usize)
    requires
        line_number_width <= 20,
    ensures
        cw == content_width_for(terminal, line_number_width as int),
        1 <= cw <= 50 || cw <= 32767,
        cw >= 1,
{
    let default: usize = 50;
    match terminal {
        Some(w) => {
            let chrome = 2 * line_number_width + 9;
            let w = w as usize;
            if w > chrome + 2 {
                (w - chrome) / 2
            } else {
                default
            }
        },
        None => default,
    }
}

proof fn lemma_extends_shows(before: Seq<char>, after: Seq<char>, p: Seq<char>, x: Seq<char>)
    requires
        shows(before, p),
        extends(before, after, x),
    ensures
        shows(after, p + x),
{
}

/// Draws the side-by-side view for a terminal `terminal_columns` wide (or
/// without a known width).
pub fn render_side_by_side(input: &SideBySideInput, terminal_columns: Option<u16>) -> (out: String)
    ensures
        exists|pairing: Map<usize, usize>, moved: Set<usize>|
            #[trigger] side_by_side_of(
                out@,
                input.source_bytes@,
                input.destination_bytes@,
                input.source_tree.arena(),
                input.destination_tree.arena(),
                input.mapping.fwd(),
                input.mapping.bwd(),
                input.actions@,
                opt_text(input.filename),
                opt_text(input.language_name),
                terminal_columns,
                pairing,
                moved,
            ),
{
    let source_tree = input.source_tree;
    let destination_tree = input.destination_tree;
    let mapping = input.mapping;
    let actions = input.actions;
    let ghost t1 = source_tree.arena();
    let ghost t2 = destination_tree.arena();
    let ghost fwd = mapping.fwd();
    let ghost bwd = mapping.bwd();

    let source_text = decode_lossy(input.source_bytes);
    let destination_text = decode_lossy(input.destination_bytes);
    let source_lines = split_into_lines(source_text.as_str());
    let destination_lines = split_into_lines(destination_text.as_str());
    let ghost src = text_lines(lossy_text(input.source_bytes@));
    let ghost dst = text_lines(lossy_text(input.destination_bytes@));
    proof {
        assert(lines_model(source_lines@, src)) by {
            assert forall|k: int| 0 <= k < source_lines@.len() implies {
                &&& (#[trigger] source_lines@[k]).text@ == src[k].0
                &&& source_lines@[k].start_byte == src[k].1
                &&& source_lines@[k].end_byte == src[k].2
            } by {
                assert(line_is(source_lines@[k], text_lines(source_text@)[k]));
            }
        }
        assert(lines_model(destination_lines@, dst)) by {
            assert forall|k: int| 0 <= k < destination_lines@.len() implies {
                &&& (#[trigger] destination_lines@[k]).text@ == dst[k].0
                &&& destination_lines@[k].start_byte == dst[k].1
                &&& destination_lines@[k].end_byte == dst[k].2
            } by {
                assert(line_is(destination_lines@[k], text_lines(destination_text@)[k]));
            }
        }
    }

    let pairing = build_line_pairing(&source_lines, &destination_lines, source_tree, destination_tree, mapping);

    let updated = updated_nodes(actions);
    let n1 = source_tree.node_count();
    let mut unmapped1: Vec<bool> = Vec::new();
    let mut updated1: Vec<bool> = Vec::new();
    let mut i: usize = 0;
    while i < n1
        invariant
            i <= n1 == t1.len(),
            fwd == mapping.fwd(),
            unmapped1@.len() == i,
            updated1@.len() == i,
            forall|id: usize| #[trigger] updated@.contains(id) <==> is_updated_node(actions@, id),
            forall|k: int| 0 <= k < i ==> #[trigger] unmapped1@[k] == !fwd.contains_key(k as usize),
            forall|k: int| 0 <= k < i ==> #[trigger] updated1@[k] == is_updated_node(actions@, k as usize),
        decreases n1 - i,
    {
        unmapped1.push(!mapping.has_src(i));
        updated1.push(updated.contains(&i));
        i += 1;
    }
    let n2 = destination_tree.node_count();
    let mut unmapped2: Vec<bool> = Vec::new();
    let mut updated2: Vec<bool> = Vec::new();
    let mut i: usize = 0;
    while i < n2
        invariant
            i <= n2 == t2.len(),
            bwd == mapping.bwd(),
            unmapped2@.len() == i,
            updated2@.len() == i,
            forall|id: usize| #[trigger] updated@.contains(id) <==> is_updated_node(actions@, id),
            forall|k: int| 0 <= k < i ==> #[trigger] unmapped2@[k] == !bwd.contains_key(k as usize),
            forall|k: int|
                0 <= k < i ==> #[trigger] updated2@[k] == (bwd.contains_key(k as usize) && is_updated_node(
                    actions@,
                    bwd[k as usize],
                )),
        decreases n2 - i,
    {
        unmapped2.push(!mapping.has_dst(i));
        let up = match mapping.get_src(i) {
            Some(s) => updated.contains(&s),
            None => false,
        };
        updated2.push(up);
        i += 1;
    }
    let source_leaf_colors = classify_leaves(source_tree, unmapped1.as_slice(), updated1.as_slice(), SpanColor::Deleted);
    let destination_leaf_colors = classify_leaves(
        destination_tree,
        unmapped2.as_slice(),
        updated2.as_slice(),
        SpanColor::Inserted,
    );
    let ghost c1 = source_colors(t1, fwd, actions@);
    let ghost c2 = destination_colors(t2, bwd, actions@);
    proof {
        assert(source_leaf_colors@ =~= c1);
        assert(destination_leaf_colors@ =~= c2);
    }

    let context = DiffContext {
        source_tree,
        destination_tree,
        source_leaf_colors: &source_leaf_colors,
        destination_leaf_colors: &destination_leaf_colors,
    };
    let rows = build_output_rows(
        source_lines.as_slice(),
        destination_lines.as_slice(),
        &pairing.dst_to_src,
        &pairing.moved_dst_lines,
        &context,
    );
    let ghost pm = pairing.dst_to_src@;
    let ghost mv = pairing.moved_dst_lines@;
    let ghost models = view_rows(pm, mv, src, dst, t1, c1, t2, c2);
    proof {
        lemma_row_shapes_in(pm, src.len(), dst.len());
        lemma_rows_model(
            rows@,
            row_shapes(pm, src.len(), dst.len()),
            source_lines@,
            destination_lines@,
            mv,
            context,
            src,
            dst,
        );
        assert(rows@.map_values(|r: OutputRow| row_model(r)) == models);
    }

    let hunks = extract_hunks(rows.as_slice(), 3);
    proof {
        assert(changed_rows(rows@) =~= model_changed(models)) by {
            assert forall|k: int| 0 <= k < rows@.len() implies changed_rows(rows@)[k] == model_changed(models)[k] by {
                assert(models[k] == row_model(rows@[k]));
            }
        }
        assert(rows@.map_values(|r: OutputRow| row_model(r)).len() == rows@.len());
        assert(model_changed(models).len() == rows@.len());
        assert(rows@.len() == rows.len());
        lemma_hunks_bounds(model_changed(models), 3, rows@.len() as int);
    }

    let n_src = source_lines.len();
    let n_dst = destination_lines.len();
    let max_line_number = if n_src >= n_dst {
        n_src
    } else {
        n_dst
    };
    let mut digits = String::new();
    push_decimal(&mut digits, max_line_number as u64);
    let count = digits.unicode_len();
    let lw = if count >= 3 {
        count
    } else {
        3
    };
    proof {
        lemma_usize_digits(max_line_number);
        assert(digits@ =~= decimal_spec(max_line_number as nat));
    }
    let cw = content_width(terminal_columns, lw);
    let ghost clean = view_clean(models, lw as int, cw as int, opt_text(input.filename), opt_text(input.language_name));
    let ghost fname = opt_text(input.filename);
    let ghost lname = opt_text(input.language_name);

    let mut output = String::new();
    let ghost mut shown: Seq<char> = seq![];
    proof {
        assert(output@ =~= Seq::<char>::empty());
        lemma_shows_plain(Seq::<char>::empty());
    }
    if input.filename.is_some() || input.language_name.is_some() {
        let ghost before = output@;
        render_file_header(input.filename, input.language_name, lw, cw, &mut output);
        let ghost mid = output@;
        render_separator(lw, cw, &mut output);
        proof {
            assert(header_label(fname, lname) is Some);
            if clean {
                lemma_extends_shows(before, mid, seq![], header_plain(fname, lname, lw as int, cw as int));
                lemma_extends_shows(
                    mid,
                    output@,
                    Seq::<char>::empty() + header_plain(fname, lname, lw as int, cw as int),
                    separator_plain(lw as nat, cw as nat),
                );
            }
            shown = Seq::<char>::empty() + header_plain(fname, lname, lw as int, cw as int) + separator_plain(
                lw as nat,
                cw as nat,
            );
            assert(shown =~= header_plain(fname, lname, lw as int, cw as int) + separator_plain(lw as nat, cw as nat));
        }
    } else {
        proof {
            assert(header_label(fname, lname) is None);
        }
    }
    let ghost pre = shown;
    let ghost pre_output = output@;
    proof {
        if header_label(fname, lname) is None {
            assert(pre_output.len() == 0);
        }
    }
    let mut hunk_index: usize = 0;
    while hunk_index < hunks.len()
        invariant
            hunk_index == 0 ==> output@ == pre_output,
            hunk_index <= hunks@.len(),
            hunks@ == hunks_upto(model_changed(models), 3, rows@.len() as int),
            rows@.map_values(|r: OutputRow| row_model(r)) == models,
            forall|j: int| 0 <= j < hunks@.len() ==> (#[trigger] hunks@[j]).0 <= hunks@[j].1 <= rows@.len(),
            cw >= 1,
            clean == view_clean(models, lw as int, cw as int, fname, lname),
            clean ==> shows(output@, pre + hunks_plain(models, hunks@, lw as int, cw as int, hunk_index as int)),
            hunks_colors_held(output@, models, hunks@, hunk_index as int, cw as int, lw as int),
        decreases hunks@.len() - hunk_index,
    {
        let ghost so_far = pre + hunks_plain(models, hunks@, lw as int, cw as int, hunk_index as int);
        if hunk_index > 0 {
            let ghost before = output@;
            render_separator(lw, cw, &mut output);
            proof {
                if clean {
                    lemma_extends_shows(before, output@, so_far, separator_plain(lw as nat, cw as nat));
                }
                lemma_hunks_colors_grown(before, output@, models, hunks@, hunk_index as int, cw as int, lw as int);
            }
        }
        let ghost head = so_far + (if hunk_index > 0 {
            separator_plain(lw as nat, cw as nat)
        } else {
            seq![]
        });
        proof {
            if clean && hunk_index == 0 {
                assert(head =~= so_far);
            }
        }
        let (start, end) = hunks[hunk_index];
        let mut j: usize = start;
        proof {
            assert(models.subrange(start as int, start as int) =~= Seq::<RowModel>::empty());
            assert(head + rows_plain(models.subrange(start as int, start as int), lw as int, cw as int) =~= head);
        }
        while j < end
            invariant
                start <= j <= end <= rows@.len(),
                rows@.map_values(|r: OutputRow| row_model(r)) == models,
                cw >= 1,
                clean == view_clean(models, lw as int, cw as int, fname, lname),
                clean ==> shows(output@, head + rows_plain(models.subrange(start as int, j as int), lw as int, cw as int)),
                hunks_colors_held(output@, models, hunks@, hunk_index as int, cw as int, lw as int),
                forall|q: int| start <= q < j ==> row_colors_held(output@, #[trigger] models[q], cw as int) && row_numbers_held(output@, models[q], lw as int),
                hunks@[hunk_index as int] == (start, end),
                hunk_index < hunks@.len(),
            decreases end - j,
        {
            let ghost before = output@;
            render_row(&rows[j], lw, cw, &mut output);
            proof {
                lemma_hunks_colors_grown(before, output@, models, hunks@, hunk_index as int, cw as int, lw as int);
                let rest = output@.subrange(before.len() as int, output@.len() as int);
                assert(Seq::<char>::empty() + before + rest =~= output@);
                assert forall|q: int| start <= q < j + 1 implies row_colors_held(output@, #[trigger] models[q], cw as int) && row_numbers_held(output@, models[q], lw as int) by {
                    if q < j {
                        lemma_row_colors_extended(Seq::<char>::empty(), before, rest, models[q], cw as int);
                        lemma_row_numbers_extended(Seq::<char>::empty(), before, rest, models[q], lw as int);
                    } else {
                        assert(models[q] == row_model(rows@[q]));
                    }
                }
                assert(models[j as int] == row_model(rows@[j as int]));
                if clean {
                    assert(row_clean(models[j as int], cw as int));
                    let sub = models.subrange(start as int, j + 1);
                    assert(sub.drop_last() =~= models.subrange(start as int, j as int));
                    assert(sub.last() == models[j as int]);
                    lemma_extends_shows(
                        before,
                        output@,
                        head + rows_plain(models.subrange(start as int, j as int), lw as int, cw as int),
                        row_plain(models[j as int], lw as int, cw as int),
                    );
                    assert(head + rows_plain(sub, lw as int, cw as int) =~= head + rows_plain(
                        models.subrange(start as int, j as int),
                        lw as int,
                        cw as int,
                    ) + row_plain(models[j as int], lw as int, cw as int));
                }
            }
            j += 1;
        }
        proof {
            assert forall|h: int, q: int|
                #![trigger hunks@[h], models[q]]
                0 <= h < hunk_index + 1 && hunks@[h].0 <= q < hunks@[h].1 implies row_colors_held(output@, models[q], cw as int)
                    && row_numbers_held(output@, models[q], lw as int) by {
                if h == hunk_index {
                    assert(hunks@[h] == (start, end));
                }
            }
            if clean {
                assert(pre + hunks_plain(models, hunks@, lw as int, cw as int, hunk_index + 1) =~= head + rows_plain(
                    models.subrange(start as int, end as int),
                    lw as int,
                    cw as int,
                ));
            }
        }
        hunk_index += 1;
    }
    proof {
        assert(source_lines@.len() == src.len());
        assert(destination_lines@.len() == dst.len());
        assert(lw as int == number_width(src.len(), dst.len()));
        assert(pre + hunks_plain(models, hunks@, lw as int, cw as int, hunks@.len() as int) =~= view_plain(
            models,
            lw as int,
            cw as int,
            fname,
            lname,
        ));
        assert(side_by_side_of(
            output@,
            input.source_bytes@,
            input.destination_bytes@,
            t1,
            t2,
            fwd,
            bwd,
            actions@,
            fname,
            lname,
            terminal_columns,
            pm,
            mv,
        ));
    }
    output
}


/// Draws the side-by-side view for the terminal the process writes to.
pub fn format_side_by_side(input: &SideBySideInput) -> (out: String)
    ensures
        exists|terminal: Option<u16>, pairing: Map<usize, usize>, moved: Set<usize>|
            #[trigger] side_by_side_of(
                out@,
                input.source_bytes@,
                input.destination_bytes@,
                input.source_tree.arena(),
                input.destination_tree.arena(),
                input.mapping.fwd(),
                input.mapping.bwd(),
                input.actions@,
                opt_text(input.filename),
                opt_text(input.language_name),
                terminal,
                pairing,
                moved,
            ),
{
    let terminal = terminal_columns();
    render_side_by_side(input, terminal)
}

/// The side-by-side terminal format.
pub struct TerminalFormatter;

impl DiffFormatter for TerminalFormatter {
    /// The side-by-side view of the input, drawn for the terminal the
    /// process writes to.
    fn format(input: &FormatInput) -> (out: String)
        ensures
            exists|terminal: Option<u16>, pairing: Map<usize, usize>, moved: Set<usize>|
                #[trigger] side_by_side_of(
                    out@,
                    input.source_bytes@,
                    input.destination_bytes@,
                    input.result.src_tree.arena(),
                    input.result.dst_tree.arena(),
                    input.result.mapping.fwd(),
                    input.result.mapping.bwd(),
                    input.result.actions@,
                    opt_text(input.source_filename),
                    opt_text(input.language_name),
                    terminal,
                    pairing,
                    moved,
                ),
    {
        format_side_by_side(
            &SideBySideInput {
                source_bytes: input.source_bytes,
                destination_bytes: input.destination_bytes,
                source_tree: &input.result.src_tree,
                destination_tree: &input.result.dst_tree,
                mapping: &input.result.mapping,
                actions: input.result.actions.as_slice(),
                filename: input.source_filename,
                language_name: input.language_name,
            },
        )
    }
}


// ---------------------------------------------------------------------------
// Every line is shown once
// ---------------------------------------------------------------------------

/// The row shows source line `s`.
pub open spec fn names_src(shape: RowShape, s: usize) -> bool {
    match shape {
        RowShape::Deleted(x) => x == s,
        RowShape::Paired(x, _) => x == s,
        RowShape::Inserted(_) => false,
    }
}

/// The row shows destination line `d`.
pub open spec fn names_dst(shape: RowShape, d: usize) -> bool {
    match shape {
        RowShape::Inserted(x) => x == d,
        RowShape::Paired(_, x) => x == d,
        RowShape::Deleted(_) => false,
    }
}

/// Some row shows destination line `d`.
pub open spec fn shows_dst(shapes: Seq<RowShape>, d: usize) -> bool {
    exists|j: int| 0 <= j < shapes.len() && #[trigger] names_dst(shapes[j], d)
}

/// Some row shows source line `s`.
pub open spec fn shows_src(shapes: Seq<RowShape>, s: usize) -> bool {
    exists|j: int| 0 <= j < shapes.len() && #[trigger] names_src(shapes[j], s)
}

/// A row agrees with the pairing: paired lines side by side, and a line
/// alone only when it has no counterpart.
pub open spec fn agrees(shape: RowShape, m: Map<usize, usize>) -> bool {
    match shape {
        RowShape::Deleted(s) => !paired_source(m, s),
        RowShape::Inserted(d) => !m.contains_key(d),
        RowShape::Paired(s, d) => m.contains_key(d) && m[d] == s,
    }
}

/// What the rows drawn so far (for the first `k` destination lines) show.
pub open spec fn state_ok(m: Map<usize, usize>, k: int, shapes: Seq<RowShape>, emitted: Set<usize>, src_count: nat) -> bool {
    &&& forall|s: usize| #[trigger] emitted.contains(s) <==> shows_src(shapes, s)
    &&& forall|j1: int, j2: int, s: usize|
        0 <= j1 < shapes.len() && 0 <= j2 < shapes.len() && #[trigger] names_src(shapes[j1], s) && #[trigger] names_src(
            shapes[j2],
            s,
        ) ==> j1 == j2
    &&& forall|j1: int, j2: int, d1: usize, d2: usize|
        0 <= j1 < j2 < shapes.len() && #[trigger] names_dst(shapes[j1], d1) && #[trigger] names_dst(shapes[j2], d2)
            ==> d1 < d2
    &&& forall|j: int, d: usize| 0 <= j < shapes.len() && #[trigger] names_dst(shapes[j], d) ==> d < k
    &&& forall|d: usize| 0 <= d < k ==> #[trigger] shows_dst(shapes, d)
    &&& forall|d: usize| 0 <= d < k && #[trigger] m.contains_key(d) ==> emitted.contains(m[d])
    &&& forall|j: int| 0 <= j < shapes.len() ==> agrees(#[trigger] shapes[j], m)
}

/// The deletions between two source lines show exactly the unpaired,
/// undrawn lines there, once each, and no destination line.
proof fn lemma_skipped_names(m: Map<usize, usize>, e: Set<usize>, from: int, to: int)
    requires
        0 <= from,
        to <= usize::MAX + 1,
    ensures
        forall|j: int, g: usize|
            0 <= j < skipped(m, e, from, to).len() && #[trigger] names_src(skipped(m, e, from, to)[j], g) ==> from <= g
                < to && !paired_source(m, g) && !e.contains(g),
        forall|g: usize|
            from <= g < to && !paired_source(m, g) && !e.contains(g) ==> #[trigger] shows_src(
                skipped(m, e, from, to),
                g,
            ),
        forall|j1: int, j2: int, g: usize|
            0 <= j1 < skipped(m, e, from, to).len() && 0 <= j2 < skipped(m, e, from, to).len() && #[trigger] names_src(
                skipped(m, e, from, to)[j1],
                g,
            ) && #[trigger] names_src(skipped(m, e, from, to)[j2], g) ==> j1 == j2,
        forall|j: int| 0 <= j < skipped(m, e, from, to).len() ==> (#[trigger] skipped(m, e, from, to)[j]) is Deleted,
        forall|j: int| 0 <= j < skipped(m, e, from, to).len() ==> agrees(#[trigger] skipped(m, e, from, to)[j], m),
    decreases to - from,
{
    if from < to {
        lemma_skipped_names(m, e, from, to - 1);
        let prev = skipped(m, e, from, to - 1);
        let now = skipped(m, e, from, to);
        let g0 = (to - 1) as usize;
        if !paired_source(m, g0) && !e.contains(g0) {
            assert(now == prev.push(RowShape::Deleted(g0)));
            assert forall|g: usize| from <= g < to && !paired_source(m, g) && !e.contains(g) implies #[trigger] shows_src(
                now,
                g,
            ) by {
                if g == g0 {
                    assert(names_src(now[prev.len() as int], g));
                } else {
                    assert(shows_src(prev, g));
                    let j = choose|j: int| 0 <= j < prev.len() && #[trigger] names_src(prev[j], g);
                    assert(now[j] == prev[j]);
                    assert(names_src(now[j], g));
                }
            }
            assert forall|j: int, g: usize| 0 <= j < now.len() && #[trigger] names_src(now[j], g) implies from <= g < to
                && !paired_source(m, g) && !e.contains(g) by {
                if j < prev.len() {
                    assert(now[j] == prev[j]);
                }
            }
            assert forall|j1: int, j2: int, g: usize|
                0 <= j1 < now.len() && 0 <= j2 < now.len() && #[trigger] names_src(now[j1], g) && #[trigger] names_src(
                    now[j2],
                    g,
                ) implies j1 == j2 by {
                if j1 < prev.len() {
                    assert(now[j1] == prev[j1]);
                }
                if j2 < prev.len() {
                    assert(now[j2] == prev[j2]);
                }
            }
            assert forall|j: int| 0 <= j < now.len() implies (#[trigger] now[j]) is Deleted && agrees(now[j], m) by {
                if j < prev.len() {
                    assert(now[j] == prev[j]);
                }
            }
        } else {
            assert(now == prev);
        }
    }
}

proof fn lemma_state_ok(m: Map<usize, usize>, k: int, src_count: nat, dst_count: nat)
    requires
        pairing_ok(m, dst_count, src_count),
        0 <= k <= dst_count,
        dst_count <= usize::MAX,
        src_count <= usize::MAX,
    ensures
        state_ok(m, k, rows_state(m, k).0, rows_state(m, k).1, src_count),
        rows_state(m, k).2 matches Some(l) ==> l < src_count,
    decreases k,
{
    if k == 0 {
        let (shapes, emitted, _) = rows_state(m, 0);
        assert(shapes.len() == 0);
        assert(emitted =~= Set::<usize>::empty());
    } else {
        lemma_state_ok(m, k - 1, src_count, dst_count);
        let (shapes, emitted, last) = rows_state(m, k - 1);
        let d0 = (k - 1) as usize;
        let (shapes1, emitted1, last1) = rows_state(m, k);
        if !m.contains_key(d0) {
            assert(shapes1 == shapes.push(RowShape::Inserted(d0)));
            assert(emitted1 == emitted);
            assert forall|s: usize| #[trigger] emitted1.contains(s) <==> shows_src(shapes1, s) by {
                if shows_src(shapes1, s) {
                    let j = choose|j: int| 0 <= j < shapes1.len() && #[trigger] names_src(shapes1[j], s);
                    assert(j < shapes.len());
                    assert(shapes1[j] == shapes[j]);
                    assert(shows_src(shapes, s));
                }
                if emitted.contains(s) {
                    let j = choose|j: int| 0 <= j < shapes.len() && #[trigger] names_src(shapes[j], s);
                    assert(shapes1[j] == shapes[j]);
                    assert(names_src(shapes1[j], s));
                }
            }
            assert forall|j1: int, j2: int, s: usize|
                0 <= j1 < shapes1.len() && 0 <= j2 < shapes1.len() && #[trigger] names_src(shapes1[j1], s)
                    && #[trigger] names_src(shapes1[j2], s) implies j1 == j2 by {
                assert(j1 < shapes.len() && j2 < shapes.len());
                assert(shapes1[j1] == shapes[j1]);
                assert(shapes1[j2] == shapes[j2]);
            }
            assert forall|j1: int, j2: int, d1: usize, d2: usize|
                0 <= j1 < j2 < shapes1.len() && #[trigger] names_dst(shapes1[j1], d1) && #[trigger] names_dst(
                    shapes1[j2],
                    d2,
                ) implies d1 < d2 by {
                assert(shapes1[j1] == shapes[j1]);
                if j2 < shapes.len() {
                    assert(shapes1[j2] == shapes[j2]);
                }
            }
            assert forall|j: int, d: usize| 0 <= j < shapes1.len() && #[trigger] names_dst(shapes1[j], d) implies d < k by {
                if j < shapes.len() {
                    assert(shapes1[j] == shapes[j]);
                }
            }
            assert forall|d: usize| 0 <= d < k implies #[trigger] shows_dst(shapes1, d) by {
                if d == d0 {
                    assert(names_dst(shapes1[shapes.len() as int], d));
                } else {
                    assert(shows_dst(shapes, d));
                    let j = choose|j: int| 0 <= j < shapes.len() && #[trigger] names_dst(shapes[j], d);
                    assert(shapes1[j] == shapes[j]);
                    assert(names_dst(shapes1[j], d));
                }
            }
            assert forall|j: int| 0 <= j < shapes1.len() implies agrees(#[trigger] shapes1[j], m) by {
                if j < shapes.len() {
                    assert(shapes1[j] == shapes[j]);
                }
            }
        } else {
            let s0 = m[d0];
            let gap_start: int = match last {
                Some(l) => l + 1,
                None => 0,
            };
            let gap = if s0 >= gap_start {
                skipped(m, emitted, gap_start, s0 as int)
            } else {
                seq![]
            };
            if s0 >= gap_start {
                lemma_skipped_names(m, emitted, gap_start, s0 as int);
            }
            let row = RowShape::Paired(s0, d0);
            assert(shapes1 == shapes + gap.push(row));
            let mid = shapes + gap;
            assert(shapes1 =~= mid.push(row));
            // The paired source line was not drawn before: earlier pairs use
            // other source lines, and deletions only unpaired ones.
            assert(!emitted.contains(s0)) by {
                if emitted.contains(s0) {
                    assert(shows_src(shapes, s0));
                    let j = choose|j: int| 0 <= j < shapes.len() && #[trigger] names_src(shapes[j], s0);
                    assert(agrees(shapes[j], m));
                    match shapes[j] {
                        RowShape::Deleted(x) => {
                            assert(m.contains_key(d0) && m[d0] == s0);
                        },
                        RowShape::Paired(x, dd) => {
                            assert(names_dst(shapes[j], dd));
                            assert(dd < k - 1);
                        },
                        RowShape::Inserted(_) => {},
                    }
                }
            }
            assert forall|j: int, g: usize| 0 <= j < gap.len() && #[trigger] names_src(gap[j], g) implies !emitted.contains(g)
                && g != s0 && !paired_source(m, g) by {
                assert(m.contains_key(d0) && m[d0] == s0);
            }
            assert forall|s: usize| #[trigger] emitted1.contains(s) <==> shows_src(shapes1, s) by {
                if shows_src(shapes1, s) {
                    let j = choose|j: int| 0 <= j < shapes1.len() && #[trigger] names_src(shapes1[j], s);
                    if j < shapes.len() {
                        assert(shapes1[j] == shapes[j]);
                        assert(emitted.contains(s));
                    } else if j < mid.len() {
                        assert(shapes1[j] == gap[j - shapes.len()]);
                        assert(names_src(gap[j - shapes.len()], s));
                    }
                }
                if emitted1.contains(s) {
                    if s == s0 {
                        assert(names_src(shapes1[mid.len() as int], s));
                    } else if emitted.contains(s) {
                        assert(shows_src(shapes, s));
                        let j = choose|j: int| 0 <= j < shapes.len() && #[trigger] names_src(shapes[j], s);
                        assert(shapes1[j] == shapes[j]);
                        assert(names_src(shapes1[j], s));
                    } else {
                        assert(s0 >= gap_start);
                        assert(unpaired_in(m, gap_start, s0 as int).contains(s));
                        assert(shows_src(gap, s));
                        let j = choose|j: int| 0 <= j < gap.len() && #[trigger] names_src(gap[j], s);
                        assert(shapes1[shapes.len() + j] == gap[j]);
                        assert(names_src(shapes1[shapes.len() + j], s));
                    }
                }
            }
            assert forall|j1: int, j2: int, s: usize|
                0 <= j1 < shapes1.len() && 0 <= j2 < shapes1.len() && #[trigger] names_src(shapes1[j1], s)
                    && #[trigger] names_src(shapes1[j2], s) implies j1 == j2 by {
                if j1 < shapes.len() {
                    assert(shapes1[j1] == shapes[j1]);
                } else if j1 < mid.len() {
                    assert(shapes1[j1] == gap[j1 - shapes.len()]);
                }
                if j2 < shapes.len() {
                    assert(shapes1[j2] == shapes[j2]);
                } else if j2 < mid.len() {
                    assert(shapes1[j2] == gap[j2 - shapes.len()]);
                }
                if j1 < shapes.len() && j2 >= shapes.len() {
                    assert(shows_src(shapes, s));
                    assert(emitted.contains(s));
                }
                if j2 < shapes.len() && j1 >= shapes.len() {
                    assert(shows_src(shapes, s));
                    assert(emitted.contains(s));
                }
            }
            assert forall|j1: int, j2: int, d1: usize, d2: usize|
                0 <= j1 < j2 < shapes1.len() && #[trigger] names_dst(shapes1[j1], d1) && #[trigger] names_dst(
                    shapes1[j2],
                    d2,
                ) implies d1 < d2 by {
                if j1 < shapes.len() {
                    assert(shapes1[j1] == shapes[j1]);
                } else if j1 < mid.len() {
                    assert(shapes1[j1] == gap[j1 - shapes.len()]);
                }
                if j2 < shapes.len() {
                    assert(shapes1[j2] == shapes[j2]);
                } else if j2 < mid.len() {
                    assert(shapes1[j2] == gap[j2 - shapes.len()]);
                }
            }
            assert forall|j: int, d: usize| 0 <= j < shapes1.len() && #[trigger] names_dst(shapes1[j], d) implies d < k by {
                if j < shapes.len() {
                    assert(shapes1[j] == shapes[j]);
                } else if j < mid.len() {
                    assert(shapes1[j] == gap[j - shapes.len()]);
                }
            }
            assert forall|d: usize| 0 <= d < k implies #[trigger] shows_dst(shapes1, d) by {
                if d == d0 {
                    assert(names_dst(shapes1[mid.len() as int], d));
                } else {
                    assert(shows_dst(shapes, d));
                    let j = choose|j: int| 0 <= j < shapes.len() && #[trigger] names_dst(shapes[j], d);
                    assert(shapes1[j] == shapes[j]);
                    assert(names_dst(shapes1[j], d));
                }
            }
            assert forall|d: usize| 0 <= d < k && #[trigger] m.contains_key(d) implies emitted1.contains(m[d]) by {
                if d != d0 {
                    assert(emitted.contains(m[d]));
                }
            }
            assert forall|j: int| 0 <= j < shapes1.len() implies agrees(#[trigger] shapes1[j], m) by {
                if j < shapes.len() {
                    assert(shapes1[j] == shapes[j]);
                } else if j < mid.len() {
                    assert(shapes1[j] == gap[j - shapes.len()]);
                }
            }
        }
    }
}

/// Law: the side-by-side rows show every source line and every destination
/// line exactly once, destination lines in their order; a pair of lines
/// shares a row exactly when the line pairing pairs them, and a line stands
/// alone only when it has no counterpart.
pub proof fn lemma_rows_show_every_line_once(m: Map<usize, usize>, src_count: nat, dst_count: nat)
    requires
        pairing_ok(m, dst_count, src_count),
        dst_count <= usize::MAX,
        src_count <= usize::MAX,
    ensures
        forall|s: usize| s < src_count ==> #[trigger] shows_src(row_shapes(m, src_count, dst_count), s),
        forall|j1: int, j2: int, s: usize|
            0 <= j1 < row_shapes(m, src_count, dst_count).len() && 0 <= j2 < row_shapes(m, src_count, dst_count).len()
                && #[trigger] names_src(row_shapes(m, src_count, dst_count)[j1], s) && #[trigger] names_src(
                row_shapes(m, src_count, dst_count)[j2],
                s,
            ) ==> j1 == j2,
        forall|d: usize| d < dst_count ==> #[trigger] shows_dst(row_shapes(m, src_count, dst_count), d),
        forall|j1: int, j2: int, d1: usize, d2: usize|
            0 <= j1 < j2 < row_shapes(m, src_count, dst_count).len() && #[trigger] names_dst(
                row_shapes(m, src_count, dst_count)[j1],
                d1,
            ) && #[trigger] names_dst(row_shapes(m, src_count, dst_count)[j2], d2) ==> d1 < d2,
        forall|j: int|
            0 <= j < row_shapes(m, src_count, dst_count).len() ==> agrees(
                #[trigger] row_shapes(m, src_count, dst_count)[j],
                m,
            ),
{
    lemma_state_ok(m, dst_count as int, src_count, dst_count);
    let (shapes, emitted, _) = rows_state(m, dst_count as int);
    let tail = skipped(m, emitted, 0, src_count as int);
    lemma_skipped_names(m, emitted, 0, src_count as int);
    let all = row_shapes(m, src_count, dst_count);
    assert(all == shapes + tail);
    assert forall|s: usize| s < src_count implies #[trigger] shows_src(all, s) by {
        if emitted.contains(s) {
            assert(shows_src(shapes, s));
            let j = choose|j: int| 0 <= j < shapes.len() && #[trigger] names_src(shapes[j], s);
            assert(all[j] == shapes[j]);
            assert(names_src(all[j], s));
        } else if paired_source(m, s) {
            let d = choose|d: usize| #[trigger] m.contains_key(d) && m[d] == s;
            assert(d < dst_count);
            assert(emitted.contains(m[d]));
        } else {
            assert(shows_src(tail, s));
            let j = choose|j: int| 0 <= j < tail.len() && #[trigger] names_src(tail[j], s);
            assert(all[shapes.len() + j] == tail[j]);
            assert(names_src(all[shapes.len() + j], s));
        }
    }
    assert forall|j1: int, j2: int, s: usize|
        0 <= j1 < all.len() && 0 <= j2 < all.len() && #[trigger] names_src(all[j1], s) && #[trigger] names_src(all[j2], s)
            implies j1 == j2 by {
        if j1 < shapes.len() {
            assert(all[j1] == shapes[j1]);
        } else {
            assert(all[j1] == tail[j1 - shapes.len()]);
        }
        if j2 < shapes.len() {
            assert(all[j2] == shapes[j2]);
        } else {
            assert(all[j2] == tail[j2 - shapes.len()]);
        }
        if j1 < shapes.len() && j2 >= shapes.len() {
            assert(shows_src(shapes, s));
            assert(emitted.contains(s));
        }
        if j2 < shapes.len() && j1 >= shapes.len() {
            assert(shows_src(shapes, s));
            assert(emitted.contains(s));
        }
        if j1 >= shapes.len() && j2 >= shapes.len() {
            assert(names_src(tail[j1 - shapes.len()], s));
        }
    }
    assert forall|d: usize| d < dst_count implies #[trigger] shows_dst(all, d) by {
        assert(shows_dst(shapes, d));
        let j = choose|j: int| 0 <= j < shapes.len() && #[trigger] names_dst(shapes[j], d);
        assert(all[j] == shapes[j]);
        assert(names_dst(all[j], d));
    }
    assert forall|j1: int, j2: int, d1: usize, d2: usize|
        0 <= j1 < j2 < all.len() && #[trigger] names_dst(all[j1], d1) && #[trigger] names_dst(all[j2], d2) implies d1 < d2 by {
        if j2 >= shapes.len() {
            assert(all[j2] == tail[j2 - shapes.len()]);
            assert(tail[j2 - shapes.len()] is Deleted);
        } else {
            assert(all[j1] == shapes[j1]);
            assert(all[j2] == shapes[j2]);
        }
    }
    assert forall|j: int| 0 <= j < all.len() implies agrees(#[trigger] all[j], m) by {
        if j < shapes.len() {
            assert(all[j] == shapes[j]);
        } else {
            assert(all[j] == tail[j - shapes.len()]);
        }
    }
}

} // verus!

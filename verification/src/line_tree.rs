//! Line-based tree construction for language-agnostic diffing.
//!
//! Builds a flat two-level tree from raw source bytes: a single `"file"` root
//! with one `"line"` leaf per line. Each leaf carries the line content as its
//! label and accurate byte offsets, so the standard action generator and JSON
//! formatter work without modification.

use vstd::prelude::*;

use crate::text::{
    decode_lossy, lemma_pieces_bytes_monotone, lemma_split_bytes, lossy_text, pieces_bytes,
    split_lines, split_on_newlines, strip_cr, without_trailing_cr,
};
use crate::tree::{in_subtree, parents, Node, Tree, TreeBuilder};

verus! {

/// Label, start and end byte of each line, taking the pieces of the text in
/// order from byte `offset`, and stopping at the empty piece that follows a
/// trailing newline (an empty piece that starts at `source_len`).
pub open spec fn line_spans(pieces: Seq<Seq<char>>, source_len: int, offset: int) -> Seq<
    (Seq<char>, int, int),
>
    decreases pieces.len(),
{
    if pieces.len() == 0 {
        seq![]
    } else {
        let piece = pieces[0];
        let end = offset + vstd::utf8::encode_utf8(piece).len();
        if offset == source_len && piece.len() == 0 {
            seq![]
        } else {
            seq![(strip_cr(piece), offset, end)] + line_spans(pieces.drop_first(), source_len, end + 1)
        }
    }
}

/// The lines of a source file as [`build_line_tree`] lays them out.
pub open spec fn source_lines(source: Seq<u8>) -> Seq<(Seq<char>, int, int)> {
    line_spans(split_lines(lossy_text(source)), source.len() as int, 0)
}

/// A flat tree: node 0 is the `"file"` root spanning the whole source, and
/// node `k + 1` is the `k`-th line, a child of the root.
pub open spec fn is_line_tree(nodes: Seq<Node>, source_len: int, lines: Seq<(Seq<char>, int, int)>) -> bool {
    &&& nodes.len() == lines.len() + 1
    &&& nodes[0].kind@ == "file"@
    &&& nodes[0].label@ == Seq::<char>::empty()
    &&& nodes[0].start_byte == 0
    &&& nodes[0].end_byte == source_len
    &&& nodes[0].parent is None
    &&& forall|k: int|
        0 <= k < lines.len() ==> {
            let node = #[trigger] nodes[k + 1];
            &&& node.kind@ == "line"@
            &&& node.label@ == lines[k].0
            &&& node.start_byte == lines[k].1
            &&& node.end_byte == lines[k].2
            &&& node.parent == Some(0usize)
        }
}

/// Builds a flat `file → line*` tree from raw source bytes.
///
/// Lines are split on `\n`. A trailing newline does not produce an empty
/// trailing line (matching the convention of `wc -l` and `diff`).
pub fn build_line_tree(source: &[u8]) -> (t: Tree)
    ensures
        t.wf(),
        t.connected(),
        t.labels_fit(),
        t.root_id() == 0,
        t.arena().len() <= usize::MAX,
        is_line_tree(t.arena(), source@.len() as int, source_lines(source@)),
{
    let source_text = decode_lossy(source);
    let ghost text = source_text@;
    let mut builder = TreeBuilder::new();
    let root = builder.add("file", "", None, 0, source.len());
    proof {
        reveal_strlit("file");
        reveal_strlit("");
        reveal_strlit("line");
    }
    let ghost mut done: Seq<(Seq<char>, int, int)> = seq![];
    let pieces = split_on_newlines(source_text.as_str());
    let ghost all = split_lines(text);
    let ghost total = line_spans(all, source@.len() as int, 0);
    proof {
        let a = builder.arena();
        assert(a.len() == 1);
        assert(a[0].kind@ == "file"@);
        assert(a[0].label@ == Seq::<char>::empty());
        assert(a[0].end_byte == source@.len());
        assert(a[0].parent is None);
        assert(is_line_tree(a, source@.len() as int, done));
        assert(vstd::utf8::encode_utf8(a[0].label@) =~= Seq::<u8>::empty());
        lemma_split_bytes(text);
        assert(all.subrange(0, all.len() as int) =~= all);
    }
    let count = pieces.len();
    let mut byte_offset: usize = 0;
    let mut k: usize = 0;
    while k < count
        invariant_except_break
            total == done + line_spans(all.subrange(k as int, all.len() as int), source@.len() as int, byte_offset as int),
            byte_offset == pieces_bytes(all, k as int),
        invariant
            builder.wf(),
            root == 0,
            count == all.len(),
            all == split_lines(text),
            text == source_text@,
            total == line_spans(all, source@.len() as int, 0),
            pieces_bytes(all, all.len() as int) == vstd::utf8::encode_utf8(text).len() + 1,
            vstd::utf8::encode_utf8(text).len() <= isize::MAX,
            pieces@.len() == all.len(),
            forall|q: int| 0 <= q < pieces@.len() ==> #[trigger] pieces@[q]@ == all[q],
            k <= count,
            is_line_tree(builder.arena(), source@.len() as int, done),
            forall|i: int|
                0 <= i < builder.arena().len() ==> #[trigger] vstd::utf8::encode_utf8(builder.arena()[i].label@).len()
                    <= isize::MAX,
        ensures
            is_line_tree(builder.arena(), source@.len() as int, total),
            builder.wf(),
            forall|i: int|
                0 <= i < builder.arena().len() ==> #[trigger] vstd::utf8::encode_utf8(builder.arena()[i].label@).len()
                    <= isize::MAX,
        decreases count - k,
    {
        let raw_line = pieces[k];
        let ghost rest = all.subrange(k as int, all.len() as int);
        proof {
            assert(raw_line@ == all[k as int]);
            assert(rest[0] == all[k as int]);
            assert(rest.drop_first() =~= all.subrange(k + 1, all.len() as int));
            lemma_pieces_bytes_monotone(all, k as int, all.len() as int);
        }
        let line_start = byte_offset;
        let line_end = byte_offset + raw_line.len();

        // Skip the phantom empty line after a trailing newline.
        if line_start == source.len() && raw_line.len() == 0 {
            proof {
                assert(raw_line@.len() == 0) by {
                    if raw_line@.len() > 0 {
                        assert(vstd::utf8::encode_utf8(raw_line@).len() > 0);
                    }
                }
                assert(line_spans(rest, source@.len() as int, byte_offset as int) == Seq::<(Seq<char>, int, int)>::empty());
                assert(done + Seq::<(Seq<char>, int, int)>::empty() =~= done);
            }
            break;
        }

        let label = without_trailing_cr(raw_line);
        let ghost before = builder.arena();
        let id = builder.add("line", label, Some(root), line_start, line_end);
        proof {
            if line_start == source.len() {
                assert(raw_line@.len() != 0) by {
                    if raw_line@.len() == 0 {
                        assert(vstd::utf8::encode_utf8(raw_line@) =~= Seq::<u8>::empty());
                    }
                }
            }
            crate::text::lemma_strip_cr_shorter(raw_line@);
            assert forall|i: int| 0 <= i < builder.arena().len() implies #[trigger] vstd::utf8::encode_utf8(
                builder.arena()[i].label@,
            ).len() <= isize::MAX by {
                if 0 < i < before.len() {
                    assert(builder.arena()[i] == before[i]);
                } else if i == 0 {
                    assert(builder.arena()[0].label == before[0].label);
                }
            }
            let entry = (strip_cr(all[k as int]), line_start as int, line_end as int);
            assert(line_spans(rest, source@.len() as int, byte_offset as int) == seq![entry] + line_spans(
                rest.drop_first(),
                source@.len() as int,
                line_end + 1,
            ));
            done = done.push(entry);
            assert(total =~= done + line_spans(
                all.subrange(k + 1, all.len() as int),
                source@.len() as int,
                line_end + 1,
            ));
            assert forall|j: int| 0 <= j < done.len() implies {
                let node = #[trigger] builder.arena()[j + 1];
                &&& node.kind@ == "line"@
                &&& node.label@ == done[j].0
                &&& node.start_byte == done[j].1
                &&& node.end_byte == done[j].2
                &&& node.parent == Some(0usize)
            } by {
                if j < done.len() - 1 {
                    assert(builder.arena()[j + 1] == before[j + 1]);
                }
            }
        }

        // Advance past the content plus the '\n' delimiter.
        byte_offset = line_end + 1;
        k += 1;
    }
    proof {
        if k == count {
            assert(all.subrange(k as int, all.len() as int) =~= Seq::<Seq<char>>::empty());
            assert(done + Seq::<(Seq<char>, int, int)>::empty() =~= done);
        }
    }

    let ghost nodes = builder.arena();
    let t = builder.build(root);
    proof {
        let arena = t.arena();
        assert forall|i: int| 0 <= i < arena.len() implies #[trigger] in_subtree(parents(arena), t.root_id(), i) by {
            assert(parents(arena).len() == arena.len());
            if i == 0 {
                assert(in_subtree(parents(arena), 0, 0));
            } else {
                assert(arena[i] == arena[(i - 1) + 1]);
                assert(arena[i].parent == nodes[i].parent);
                assert(parents(arena)[i] == Some(0usize));
                assert(in_subtree(parents(arena), 0, 0));
            }
        }
        assert forall|j: int| 0 <= j < total.len() implies {
            let node = #[trigger] t.arena()[j + 1];
            &&& node.kind@ == "line"@
            &&& node.label@ == total[j].0
            &&& node.start_byte == total[j].1
            &&& node.end_byte == total[j].2
            &&& node.parent == Some(0usize)
        } by {
            assert(t.arena()[j + 1].kind == nodes[j + 1].kind);
        }
        assert forall|i: int| 0 <= i < t.arena().len() implies #[trigger] vstd::utf8::encode_utf8(
            t.arena()[i].label@,
        ).len() < usize::MAX by {
            assert(t.arena()[i].label == nodes[i].label);
        }
    }
    t
}

} // verus!

//! Line-pairing algorithm: builds a bijective destination-line → source-line mapping.
//!
//! The pairing is a projection of the AST mapping onto lines, completed by
//! one classical text alignment for what the AST cannot see:
//!
//! 1. **Votes**: every mapped destination token votes for the source line
//!    its counterpart lives on; the majority wins.  This is the mapping —
//!    and therefore the edit script — read line by line.
//! 2. **Gap alignment**: between consecutive anchors, lines invisible to
//!    the mapping (blank lines, interior lines of multi-line tokens) are
//!    aligned by longest common subsequence over identical trimmed text.
//!    Alignment is order-preserving inside each gap, so it can never
//!    fabricate a move.
//!
//! Lines that neither phase pairs stay unpaired and render as whole-line
//! deletions or insertions, exactly as the edit script describes them.  No
//! pair is ever invented from text similarity or positional bookkeeping:
//! an invented pair masquerades as a changed or moved line that the edit
//! script does not contain.

use std::collections::{HashMap, HashSet};
use vstd::prelude::*;

use crate::mapping::Mapping;
use crate::text::{same_text, split_lines, split_on_newlines, trim_text, trimmed};
use crate::tree::{Node, Tree};

verus! {

broadcast use vstd::std_specs::hash::group_hash_axioms;

/// A single logical line within a source buffer.
#[derive(Debug)]
pub struct FileLine<'a> {
    pub text: &'a str,
    pub start_byte: usize,
    pub end_byte: usize,
}

/// The result of pairing source and destination lines.
pub struct LinePairing {
    /// Maps destination line index → source line index.
    pub dst_to_src: HashMap<usize, usize>,
    /// Destination lines that belong to moved (reordered) blocks.
    pub moved_dst_lines: HashSet<usize>,
}

/// Text, start byte and end byte of each piece of a text, the first one
/// starting at `offset` and each next one after the previous one's newline.
pub open spec fn piece_spans(pieces: Seq<Seq<char>>, offset: int) -> Seq<(Seq<char>, int, int)>
    decreases pieces.len(),
{
    if pieces.len() == 0 {
        seq![]
    } else {
        let end = offset + vstd::utf8::encode_utf8(pieces[0]).len();
        seq![(pieces[0], offset, end)] + piece_spans(pieces.drop_first(), end + 1)
    }
}

/// The lines of a text: its newline-separated pieces with their byte
/// spans, without the empty piece after a trailing newline (or the single
/// empty piece of an empty text).
pub open spec fn text_lines(text: Seq<char>) -> Seq<(Seq<char>, int, int)> {
    let spans = piece_spans(split_lines(text), 0);
    if spans.len() > 0 && spans.last().0.len() == 0 {
        spans.drop_last()
    } else {
        spans
    }
}

/// The line `line` describes the span `span`.
pub open spec fn line_is(line: FileLine, span: (Seq<char>, int, int)) -> bool {
    &&& line.text@ == span.0
    &&& line.start_byte == span.1
    &&& line.end_byte == span.2
}

/// Splits source text into [`FileLine`]s on `\n` boundaries.
///
/// Callers with raw bytes should convert with `String::from_utf8_lossy`
/// first (matching `build_line_tree`'s behaviour) and keep the resulting
/// text alive for as long as the lines are used.
pub fn split_into_lines(text: &str) -> (lines: Vec<FileLine<'_>>)
    requires
        vstd::utf8::encode_utf8(text@).len() < usize::MAX,
    ensures
        lines@.len() == text_lines(text@).len(),
        forall|k: int| 0 <= k < lines@.len() ==> line_is(#[trigger] lines@[k], text_lines(text@)[k]),
        ends_sorted(lines@),
        lines@.len() <= vstd::utf8::encode_utf8(text@).len() + 1,
{
    let pieces = split_on_newlines(text);
    let ghost all = split_lines(text@);
    let ghost spans = piece_spans(all, 0);
    proof {
        crate::text::lemma_split_bytes(text@);
        assert(all.subrange(0, all.len() as int) =~= all);
    }
    let mut lines: Vec<FileLine> = Vec::new();
    let mut offset: usize = 0;
    let mut k: usize = 0;
    let ghost mut done: Seq<(Seq<char>, int, int)> = seq![];
    while k < pieces.len()
        invariant
            all == split_lines(text@),
            spans == piece_spans(all, 0),
            pieces@.len() == all.len(),
            forall|q: int| 0 <= q < pieces@.len() ==> #[trigger] pieces@[q]@ == all[q],
            crate::text::pieces_bytes(all, all.len() as int) == vstd::utf8::encode_utf8(text@).len() + 1,
            vstd::utf8::encode_utf8(text@).len() < usize::MAX,
            k <= pieces@.len(),
            offset == crate::text::pieces_bytes(all, k as int),
            spans == done + piece_spans(all.subrange(k as int, all.len() as int), offset as int),
            lines@.len() == done.len(),
            forall|q: int| 0 <= q < lines@.len() ==> line_is(#[trigger] lines@[q], done[q]),
        decreases pieces@.len() - k,
    {
        let line = pieces[k];
        let ghost rest = all.subrange(k as int, all.len() as int);
        proof {
            assert(rest[0] == all[k as int]);
            assert(rest.drop_first() =~= all.subrange(k + 1, all.len() as int));
            crate::text::lemma_pieces_bytes_monotone(all, k as int, all.len() as int);
        }
        let end = offset + line.len();
        let ghost before = lines@;
        lines.push(FileLine { text: line, start_byte: offset, end_byte: end });
        proof {
            let entry = (all[k as int], offset as int, end as int);
            assert(piece_spans(rest, offset as int) == seq![entry] + piece_spans(rest.drop_first(), end + 1));
            done = done.push(entry);
            assert(spans =~= done + piece_spans(all.subrange(k + 1, all.len() as int), end + 1));
            assert forall|q: int| 0 <= q < lines@.len() implies line_is(#[trigger] lines@[q], done[q]) by {
                if q < before.len() {
                    assert(lines@[q] == before[q]);
                }
            }
        }
        offset = end + 1;
        k += 1;
    }
    proof {
        assert(all.subrange(k as int, all.len() as int) =~= Seq::<Seq<char>>::empty());
        assert(spans =~= done);
    }
    if lines.len() > 0 && lines[lines.len() - 1].text.is_empty() {
        let ghost before = lines@;
        lines.pop();
        proof {
            assert(lines@ =~= before.drop_last());
        }
    }
    proof {
        lemma_pieces_bytes_count(all, all.len() as int);
        lemma_piece_spans_sorted(all, 0);
        assert forall|i: int, j: int| 0 <= i <= j < lines@.len() implies #[trigger] lines@[i].end_byte
            <= #[trigger] lines@[j].end_byte by {
            assert(line_is(lines@[i], text_lines(text@)[i]));
            assert(line_is(lines@[j], text_lines(text@)[j]));
            assert(text_lines(text@)[i] == spans[i]);
            assert(text_lines(text@)[j] == spans[j]);
        }
    }
    lines
}

/// Each piece takes at least its newline's byte.
proof fn lemma_pieces_bytes_count(pieces: Seq<Seq<char>>, k: int)
    requires
        0 <= k <= pieces.len(),
    ensures
        crate::text::pieces_bytes(pieces, k) >= k,
    decreases k,
{
    if k > 0 {
        lemma_pieces_bytes_count(pieces, k - 1);
    }
}

/// The spans of successive pieces start at or after `offset`, each ends at
/// or after its start, and their ends strictly increase.
pub proof fn lemma_piece_spans_sorted(pieces: Seq<Seq<char>>, offset: int)
    ensures
        piece_spans(pieces, offset).len() == pieces.len(),
        forall|i: int|
            0 <= i < pieces.len() ==> offset <= (#[trigger] piece_spans(pieces, offset)[i]).1 <= piece_spans(
                pieces,
                offset,
            )[i].2,
        forall|i: int, j: int|
            0 <= i < j < pieces.len() ==> (#[trigger] piece_spans(pieces, offset)[i]).2 < (
            #[trigger] piece_spans(pieces, offset)[j]).2,
    decreases pieces.len(),
{
    if pieces.len() > 0 {
        let end = offset + vstd::utf8::encode_utf8(pieces[0]).len();
        let rest = piece_spans(pieces.drop_first(), end + 1);
        lemma_piece_spans_sorted(pieces.drop_first(), end + 1);
        let all = piece_spans(pieces, offset);
        assert(all == seq![(pieces[0], offset, end)] + rest);
        assert forall|i: int| 0 <= i < pieces.len() implies offset <= (#[trigger] all[i]).1 <= all[i].2 by {
            if i > 0 {
                assert(all[i] == rest[i - 1]);
            }
        }
        assert forall|i: int, j: int| 0 <= i < j < pieces.len() implies (#[trigger] all[i]).2 < (
        #[trigger] all[j]).2 by {
            assert(all[j] == rest[j - 1]);
            if i > 0 {
                assert(all[i] == rest[i - 1]);
            } else {
                assert(rest[j - 1].1 >= end + 1);
            }
        }
    }
}

/// The end bytes of `lines` never decrease.
pub open spec fn ends_sorted(lines: Seq<FileLine>) -> bool {
    forall|i: int, j: int| 0 <= i <= j < lines.len() ==> #[trigger] lines[i].end_byte <= #[trigger] lines[j].end_byte
}

/// `i` is the first line ending at or after `byte_offset`, and it starts at
/// or before it: the line that contains the offset.
pub open spec fn contains_offset(lines: Seq<FileLine>, i: int, byte_offset: int) -> bool {
    &&& 0 <= i < lines.len()
    &&& forall|j: int| 0 <= j < i ==> #[trigger] lines[j].end_byte < byte_offset
    &&& lines[i].end_byte >= byte_offset
    &&& lines[i].start_byte <= byte_offset
}

/// Returns the line index that contains the given byte offset.
pub fn line_index_at_byte(lines: &[FileLine], byte_offset: usize) -> (r: Option<usize>)
    requires
        ends_sorted(lines@),
    ensures
        match r {
            Some(i) => contains_offset(lines@, i as int, byte_offset as int),
            None => forall|i: int| !contains_offset(lines@, i, byte_offset as int),
        },
{
    // Lines are sorted and contiguous, so binary search applies.
    let mut low: usize = 0;
    let mut high: usize = lines.len();
    while low < high
        invariant
            ends_sorted(lines@),
            low <= high <= lines@.len(),
            forall|j: int| 0 <= j < low ==> #[trigger] lines@[j].end_byte < byte_offset,
            forall|j: int| high <= j < lines@.len() ==> #[trigger] lines@[j].end_byte >= byte_offset,
        decreases high - low,
    {
        let middle = low + (high - low) / 2;
        if lines[middle].end_byte < byte_offset {
            proof {
                assert forall|j: int| 0 <= j < middle + 1 implies #[trigger] lines@[j].end_byte < byte_offset by {
                    assert(lines@[j].end_byte <= lines@[middle as int].end_byte);
                }
            }
            low = middle + 1;
        } else {
            proof {
                assert forall|j: int| middle <= j < lines@.len() implies #[trigger] lines@[j].end_byte >= byte_offset by {
                    assert(lines@[middle as int].end_byte <= lines@[j].end_byte);
                }
            }
            high = middle;
        }
    }
    let index = low;
    if index < lines.len() && byte_offset >= lines[index].start_byte {
        Some(index)
    } else {
        proof {
            assert forall|i: int| !contains_offset(lines@, i, byte_offset as int) by {
                if contains_offset(lines@, i, byte_offset as int) {
                    if i < index {
                        assert(lines@[i].end_byte < byte_offset);
                    } else if i > index {
                        assert(lines@[index as int].end_byte < byte_offset);
                    }
                }
            }
        }
        None
    }
}

/// `a` comes no later than `b` in lexicographic order.
pub open spec fn lex_le(a: (usize, usize, usize), b: (usize, usize, usize)) -> bool {
    a.0 < b.0 || (a.0 == b.0 && (a.1 < b.1 || (a.1 == b.1 && a.2 <= b.2)))
}

/// Sorts triples in ascending lexicographic order (`slice::sort`, stable).
#[verifier::external_body]
fn sort_triples(items: &mut Vec<(usize, usize, usize)>)
    ensures
        final(items)@.len() == old(items)@.len(),
        final(items)@.to_multiset() == old(items)@.to_multiset(),
        forall|i: int| 0 <= i < final(items)@.len() ==> old(items)@.contains(#[trigger] final(items)@[i]),
        forall|i: int, j: int|
            0 <= i < j < final(items)@.len() ==> lex_le(#[trigger] final(items)@[i], #[trigger] final(items)@[j]),
{
    items.sort();
}

/// The texts of two lines are equal once trimmed.
pub open spec fn identical_lines(a: FileLine, b: FileLine) -> bool {
    trimmed(a.text@) == trimmed(b.text@)
}

/// The mapping links a destination leaf on line `d` to a source node
/// starting on line `s`: the leaf votes for that pair of lines.
pub open spec fn voted(
    t1: Seq<Node>,
    t2: Seq<Node>,
    bwd: Map<usize, usize>,
    src: Seq<FileLine>,
    dst: Seq<FileLine>,
    d: int,
    s: int,
) -> bool {
    exists|id: usize|
        #[trigger] bwd.contains_key(id) && id < t2.len() && t2[id as int].children@.len() == 0 && bwd[id] < t1.len()
            && contains_offset(dst, d, t2[id as int].start_byte as int) && contains_offset(
            src,
            s,
            t1[bwd[id] as int].start_byte as int,
        )
}

/// A pair of lines the line pairing may hold: the mapping votes for it, or
/// the two lines read the same once trimmed.
pub open spec fn pair_justified(
    t1: Seq<Node>,
    t2: Seq<Node>,
    bwd: Map<usize, usize>,
    src: Seq<FileLine>,
    dst: Seq<FileLine>,
    d: int,
    s: int,
) -> bool {
    voted(t1, t2, bwd, src, dst, d, s) || identical_lines(dst[d], src[s])
}

/// Builds a complete [`LinePairing`] from the AST-level mapping.
pub fn build_line_pairing<'a>(
    source_lines: &[FileLine<'a>],
    destination_lines: &[FileLine<'a>],
    source_tree: &Tree,
    destination_tree: &Tree,
    mapping: &Mapping,
) -> (r: LinePairing)
    requires
        ends_sorted(source_lines@),
        ends_sorted(destination_lines@),
    ensures
        pairing_ok(r.dst_to_src@, destination_lines@.len(), source_lines@.len()),
        forall|d: usize| #[trigger] r.moved_dst_lines@.contains(d) ==> r.dst_to_src@.contains_key(d),
        forall|d: usize|
            #[trigger] r.moved_dst_lines@.contains(d) <==> moved_line(
                r.dst_to_src@,
                destination_lines@.len(),
                d,
            ),
        forall|d: usize|
            #[trigger] r.dst_to_src@.contains_key(d) ==> pair_justified(
                source_tree.arena(),
                destination_tree.arena(),
                mapping.bwd(),
                source_lines@,
                destination_lines@,
                d as int,
                r.dst_to_src@[d] as int,
            ),
        pairing_from_votes(
            source_tree.arena(),
            destination_tree.arena(),
            mapping.bwd(),
            source_lines@,
            destination_lines@,
            r.dst_to_src@,
        ),
{
    let candidates = phase1_vote(source_lines, destination_lines, source_tree, destination_tree, mapping);
    let dst_to_src = phase2_align(
        candidates,
        source_lines,
        destination_lines,
        Ghost(source_tree.arena()),
        Ghost(destination_tree.arena()),
        Ghost(mapping.bwd()),
    );
    let moved_dst_lines = detect_moved_destination_lines(&dst_to_src, destination_lines.len());
    LinePairing { dst_to_src, moved_dst_lines }
}

/// A destination-to-source line map over `dst_count` and `src_count` lines
/// that pairs each source line at most once.
pub open spec fn pairing_ok(m: Map<usize, usize>, dst_count: nat, src_count: nat) -> bool {
    &&& forall|d: usize| #[trigger] m.contains_key(d) ==> d < dst_count && m[d] < src_count
    &&& forall|d1: usize, d2: usize|
        #[trigger] m.contains_key(d1) && #[trigger] m.contains_key(d2) && d1 != d2 ==> m[d1] != m[d2]
}

/// At most one line contains a given offset.
proof fn lemma_contains_offset_unique(lines: Seq<FileLine>, i: int, j: int, offset: int)
    requires
        contains_offset(lines, i, offset),
        contains_offset(lines, j, offset),
    ensures
        i == j,
{
    if i < j {
        assert(lines[i].end_byte < offset);
    } else if j < i {
        assert(lines[j].end_byte < offset);
    }
}

/// Destination node `x` is a mapped leaf whose vote goes to destination line
/// `d` and source line `s`: the lines its node and its counterpart start on.
pub open spec fn leaf_votes(
    t1: Seq<Node>,
    t2: Seq<Node>,
    bwd: Map<usize, usize>,
    src: Seq<FileLine>,
    dst: Seq<FileLine>,
    x: int,
    d: int,
    s: int,
) -> bool {
    &&& 0 <= x < t2.len()
    &&& t2[x].children@.len() == 0
    &&& bwd.contains_key(x as usize)
    &&& bwd[x as usize] < t1.len()
    &&& contains_offset(dst, d, t2[x].start_byte as int)
    &&& contains_offset(src, s, t1[bwd[x as usize] as int].start_byte as int)
}

/// Destination node `x` casts a vote at all.
pub open spec fn casts_vote(
    t1: Seq<Node>,
    t2: Seq<Node>,
    bwd: Map<usize, usize>,
    src: Seq<FileLine>,
    dst: Seq<FileLine>,
    x: int,
) -> bool {
    exists|d: int, s: int| #[trigger] leaf_votes(t1, t2, bwd, src, dst, x, d, s)
}

/// The votes for destination line `d` and source line `s` among the first
/// `n` destination nodes.
pub open spec fn vote_count(
    t1: Seq<Node>,
    t2: Seq<Node>,
    bwd: Map<usize, usize>,
    src: Seq<FileLine>,
    dst: Seq<FileLine>,
    n: int,
    d: int,
    s: int,
) -> nat
    decreases n,
{
    if n <= 0 {
        0
    } else {
        vote_count(t1, t2, bwd, src, dst, n - 1, d, s) + if leaf_votes(t1, t2, bwd, src, dst, n - 1, d, s) {
            1nat
        } else {
            0nat
        }
    }
}

/// The votes cast among the first `n` destination nodes.
pub open spec fn votes_cast(
    t1: Seq<Node>,
    t2: Seq<Node>,
    bwd: Map<usize, usize>,
    src: Seq<FileLine>,
    dst: Seq<FileLine>,
    n: int,
) -> nat
    decreases n,
{
    if n <= 0 {
        0
    } else {
        votes_cast(t1, t2, bwd, src, dst, n - 1) + if casts_vote(t1, t2, bwd, src, dst, n - 1) {
            1nat
        } else {
            0nat
        }
    }
}

/// Source line `s` wins the vote of destination line `d`: it has votes, as
/// many as any other source line, and comes first among those that tie.
pub open spec fn majority(
    t1: Seq<Node>,
    t2: Seq<Node>,
    bwd: Map<usize, usize>,
    src: Seq<FileLine>,
    dst: Seq<FileLine>,
    d: int,
    s: int,
) -> bool {
    let n = t2.len() as int;
    &&& vote_count(t1, t2, bwd, src, dst, n, d, s) > 0
    &&& forall|s2: int|
        #[trigger] vote_count(t1, t2, bwd, src, dst, n, d, s2) < vote_count(t1, t2, bwd, src, dst, n, d, s) || (
        vote_count(t1, t2, bwd, src, dst, n, d, s2) == vote_count(t1, t2, bwd, src, dst, n, d, s) && s <= s2)
}

/// The candidate phase one makes of destination line `d` won by `s`: its
/// rank (fewer missing votes rank first), the line, and its winner.
pub open spec fn candidate_of(
    t1: Seq<Node>,
    t2: Seq<Node>,
    bwd: Map<usize, usize>,
    src: Seq<FileLine>,
    dst: Seq<FileLine>,
    d: int,
    s: int,
) -> (usize, usize, usize) {
    let n = t2.len() as int;
    (
        (votes_cast(t1, t2, bwd, src, dst, n) - vote_count(t1, t2, bwd, src, dst, n, d, s)) as usize,
        d as usize,
        s as usize,
    )
}

/// `r` is the ranking phase one produces: one candidate per destination line
/// with votes, made of its majority, in strictly increasing order.
pub open spec fn is_vote_ranking(
    t1: Seq<Node>,
    t2: Seq<Node>,
    bwd: Map<usize, usize>,
    src: Seq<FileLine>,
    dst: Seq<FileLine>,
    r: Seq<(usize, usize, usize)>,
) -> bool {
    &&& forall|k: int|
        0 <= k < r.len() ==> majority(t1, t2, bwd, src, dst, (#[trigger] r[k]).1 as int, r[k].2 as int) && r[k]
            == candidate_of(t1, t2, bwd, src, dst, r[k].1 as int, r[k].2 as int)
    &&& forall|d: int, s: int|
        #[trigger] vote_count(t1, t2, bwd, src, dst, t2.len() as int, d, s) > 0 ==> exists|k: int|
            0 <= k < r.len() && (#[trigger] r[k]).1 == d
    &&& forall|k1: int, k2: int| 0 <= k1 < k2 < r.len() ==> lex_le(#[trigger] r[k1], #[trigger] r[k2]) && r[k1] != r[k2]
}

/// The ranking of candidates phase one produces.
pub open spec fn vote_ranking(
    t1: Seq<Node>,
    t2: Seq<Node>,
    bwd: Map<usize, usize>,
    src: Seq<FileLine>,
    dst: Seq<FileLine>,
) -> Seq<(usize, usize, usize)> {
    choose|r: Seq<(usize, usize, usize)>| is_vote_ranking(t1, t2, bwd, src, dst, r)
}

/// A destination line has at most one majority.
proof fn lemma_majority_unique(
    t1: Seq<Node>,
    t2: Seq<Node>,
    bwd: Map<usize, usize>,
    src: Seq<FileLine>,
    dst: Seq<FileLine>,
    d: int,
    s1: int,
    s2: int,
)
    requires
        majority(t1, t2, bwd, src, dst, d, s1),
        majority(t1, t2, bwd, src, dst, d, s2),
    ensures
        s1 == s2,
{
    let n = t2.len() as int;
    assert(vote_count(t1, t2, bwd, src, dst, n, d, s2) < vote_count(t1, t2, bwd, src, dst, n, d, s1) || s1 <= s2);
    assert(vote_count(t1, t2, bwd, src, dst, n, d, s1) < vote_count(t1, t2, bwd, src, dst, n, d, s2) || s2 <= s1);
}

/// Two strictly increasing lists of triples with the same members are equal.
proof fn lemma_lex_sorted_same_members(a: Seq<(usize, usize, usize)>, b: Seq<(usize, usize, usize)>)
    requires
        forall|i: int, j: int| 0 <= i < j < a.len() ==> lex_le(#[trigger] a[i], #[trigger] a[j]) && a[i] != a[j],
        forall|i: int, j: int| 0 <= i < j < b.len() ==> lex_le(#[trigger] b[i], #[trigger] b[j]) && b[i] != b[j],
        forall|x: (usize, usize, usize)| a.contains(x) <==> b.contains(x),
    ensures
        a == b,
    decreases a.len() + b.len(),
{
    if a.len() == 0 {
        if b.len() > 0 {
            assert(b.contains(b[0]));
        }
        assert(a =~= b);
    } else if b.len() == 0 {
        assert(a.contains(a[0]));
    } else {
        assert(a.contains(a[0]));
        assert(b.contains(b[0]));
        let i = choose|i: int| 0 <= i < a.len() && a[i] == b[0];
        let j = choose|j: int| 0 <= j < b.len() && b[j] == a[0];
        if i > 0 && j > 0 {
            assert(lex_le(a[0], a[i]) && lex_le(b[0], b[j]));
        }
        assert(a[0] == b[0]);
        let ta = a.drop_first();
        let tb = b.drop_first();
        assert forall|x: (usize, usize, usize)| ta.contains(x) <==> tb.contains(x) by {
            if ta.contains(x) {
                let k = choose|k: int| 0 <= k < ta.len() && ta[k] == x;
                assert(a[k + 1] == x);
                assert(a[0] != a[k + 1]);
                assert(a.contains(x));
                let q = choose|q: int| 0 <= q < b.len() && b[q] == x;
                assert(q != 0);
                assert(tb[q - 1] == x);
            }
            if tb.contains(x) {
                let k = choose|k: int| 0 <= k < tb.len() && tb[k] == x;
                assert(b[k + 1] == x);
                assert(b[0] != b[k + 1]);
                assert(b.contains(x));
                let q = choose|q: int| 0 <= q < a.len() && a[q] == x;
                assert(q != 0);
                assert(ta[q - 1] == x);
            }
        }
        assert forall|i: int, j: int| 0 <= i < j < ta.len() implies lex_le(#[trigger] ta[i], #[trigger] ta[j]) && ta[i]
            != ta[j] by {
            assert(ta[i] == a[i + 1] && ta[j] == a[j + 1]);
        }
        assert forall|i: int, j: int| 0 <= i < j < tb.len() implies lex_le(#[trigger] tb[i], #[trigger] tb[j]) && tb[i]
            != tb[j] by {
            assert(tb[i] == b[i + 1] && tb[j] == b[j + 1]);
        }
        lemma_lex_sorted_same_members(ta, tb);
        assert(a =~= seq![a[0]] + ta);
        assert(b =~= seq![b[0]] + tb);
    }
}

/// There is one ranking only.
proof fn lemma_vote_ranking_unique(
    t1: Seq<Node>,
    t2: Seq<Node>,
    bwd: Map<usize, usize>,
    src: Seq<FileLine>,
    dst: Seq<FileLine>,
    r: Seq<(usize, usize, usize)>,
)
    requires
        is_vote_ranking(t1, t2, bwd, src, dst, r),
    ensures
        r == vote_ranking(t1, t2, bwd, src, dst),
{
    let v = vote_ranking(t1, t2, bwd, src, dst);
    assert(is_vote_ranking(t1, t2, bwd, src, dst, v));
    let n = t2.len() as int;
    assert forall|x: (usize, usize, usize)| r.contains(x) implies v.contains(x) by {
        let k = choose|k: int| 0 <= k < r.len() && r[k] == x;
        assert(majority(t1, t2, bwd, src, dst, x.1 as int, x.2 as int));
        assert(vote_count(t1, t2, bwd, src, dst, n, x.1 as int, x.2 as int) > 0);
        let q = choose|q: int| 0 <= q < v.len() && (#[trigger] v[q]).1 == x.1 as int;
        lemma_majority_unique(t1, t2, bwd, src, dst, x.1 as int, x.2 as int, v[q].2 as int);
        assert(v[q] == x);
    }
    assert forall|x: (usize, usize, usize)| v.contains(x) implies r.contains(x) by {
        let k = choose|k: int| 0 <= k < v.len() && v[k] == x;
        assert(majority(t1, t2, bwd, src, dst, x.1 as int, x.2 as int));
        assert(vote_count(t1, t2, bwd, src, dst, n, x.1 as int, x.2 as int) > 0);
        let q = choose|q: int| 0 <= q < r.len() && (#[trigger] r[q]).1 == x.1 as int;
        lemma_majority_unique(t1, t2, bwd, src, dst, x.1 as int, x.2 as int, r[q].2 as int);
        assert(r[q] == x);
    }
    lemma_lex_sorted_same_members(r, v);
}

/// A pair of lines with a vote was voted for.
proof fn lemma_count_voted(
    t1: Seq<Node>,
    t2: Seq<Node>,
    bwd: Map<usize, usize>,
    src: Seq<FileLine>,
    dst: Seq<FileLine>,
    n: int,
    d: int,
    s: int,
)
    requires
        vote_count(t1, t2, bwd, src, dst, n, d, s) > 0,
        t2.len() <= usize::MAX,
    ensures
        voted(t1, t2, bwd, src, dst, d, s),
        0 <= d < dst.len(),
        0 <= s < src.len(),
    decreases n,
{
    if n > 0 {
        if leaf_votes(t1, t2, bwd, src, dst, n - 1, d, s) {
            let id = (n - 1) as usize;
            assert(bwd.contains_key(id));
        } else {
            lemma_count_voted(t1, t2, bwd, src, dst, n - 1, d, s);
        }
    }
}

/// No line gets more votes from the first `n` nodes than those nodes cast,
/// nor a vote from nodes at or past the end of the tree.
proof fn lemma_count_bounds(
    t1: Seq<Node>,
    t2: Seq<Node>,
    bwd: Map<usize, usize>,
    src: Seq<FileLine>,
    dst: Seq<FileLine>,
    n: int,
    d: int,
    s: int,
)
    ensures
        vote_count(t1, t2, bwd, src, dst, n, d, s) <= votes_cast(t1, t2, bwd, src, dst, n),
        votes_cast(t1, t2, bwd, src, dst, n) <= if n < 0 { 0 } else { n },
    decreases n,
{
    if n > 0 {
        lemma_count_bounds(t1, t2, bwd, src, dst, n - 1, d, s);
        if leaf_votes(t1, t2, bwd, src, dst, n - 1, d, s) {
            assert(casts_vote(t1, t2, bwd, src, dst, n - 1));
        }
    }
}

/// Phase 1: every mapped destination leaf votes for the source line its
/// mapped counterpart lives on; each destination line's majority wins (the
/// lowest source line on a tie). Returns `(rank, destination line, source
/// line)` triples, strongest anchors first (the rank falls as the vote count
/// rises), ties broken on the destination line.
fn phase1_vote<'a>(
    source_lines: &[FileLine<'a>],
    destination_lines: &[FileLine<'a>],
    source_tree: &Tree,
    destination_tree: &Tree,
    mapping: &Mapping,
) -> (r: Vec<(usize, usize, usize)>)
    requires
        ends_sorted(source_lines@),
        ends_sorted(destination_lines@),
    ensures
        forall|k: int|
            0 <= k < r@.len() ==> (#[trigger] r@[k]).1 < destination_lines@.len() && r@[k].2
                < source_lines@.len(),
        forall|k: int|
            0 <= k < r@.len() ==> voted(
                source_tree.arena(),
                destination_tree.arena(),
                mapping.bwd(),
                source_lines@,
                destination_lines@,
                (#[trigger] r@[k]).1 as int,
                r@[k].2 as int,
            ),
        forall|k: int|
            0 <= k < r@.len() ==> majority(
                source_tree.arena(),
                destination_tree.arena(),
                mapping.bwd(),
                source_lines@,
                destination_lines@,
                (#[trigger] r@[k]).1 as int,
                r@[k].2 as int,
            ) && r@[k] == candidate_of(
                source_tree.arena(),
                destination_tree.arena(),
                mapping.bwd(),
                source_lines@,
                destination_lines@,
                r@[k].1 as int,
                r@[k].2 as int,
            ),
        forall|d: int, s: int|
            #[trigger] vote_count(
                source_tree.arena(),
                destination_tree.arena(),
                mapping.bwd(),
                source_lines@,
                destination_lines@,
                destination_tree.arena().len() as int,
                d,
                s,
            ) > 0 ==> exists|k: int| 0 <= k < r@.len() && (#[trigger] r@[k]).1 == d,
        forall|k1: int, k2: int|
            0 <= k1 < k2 < r@.len() ==> lex_le(#[trigger] r@[k1], #[trigger] r@[k2]) && r@[k1] != r@[k2],
        r@ == vote_ranking(
            source_tree.arena(),
            destination_tree.arena(),
            mapping.bwd(),
            source_lines@,
            destination_lines@,
        ),
{
    let ghost t1 = source_tree.arena();
    let ghost t2 = destination_tree.arena();
    let ghost bwd = mapping.bwd();
    let ghost src = source_lines@;
    let ghost dst = destination_lines@;
    let line_count = destination_lines.len();
    // votes[line] lists (source line, count) pairs.
    let mut votes: Vec<Vec<(usize, usize)>> = Vec::with_capacity(line_count);
    let mut fill: usize = 0;
    while fill < line_count
        invariant
            fill <= line_count,
            votes@.len() == fill,
            forall|q: int| 0 <= q < fill ==> (#[trigger] votes@[q])@.len() == 0,
        decreases line_count - fill,
    {
        votes.push(Vec::new());
        fill += 1;
    }
    let mut total: usize = 0;
    let node_count = destination_tree.node_count();
    let mut id: usize = 0;
    while id < node_count
        invariant
            ends_sorted(source_lines@),
            ends_sorted(destination_lines@),
            t1 == source_tree.arena(),
            t2 == destination_tree.arena(),
            node_count == t2.len(),
            line_count == destination_lines@.len(),
            votes@.len() == line_count,
            bwd == mapping.bwd(),
            src == source_lines@,
            dst == destination_lines@,
            id <= node_count,
            total == votes_cast(t1, t2, bwd, src, dst, id as int),
            forall|q: int, v: int|
                #![trigger votes@[q]@[v]]
                0 <= q < line_count && 0 <= v < votes@[q]@.len() ==> votes@[q]@[v].0 < source_lines@.len()
                    && votes@[q]@[v].1 == vote_count(t1, t2, bwd, src, dst, id as int, q, votes@[q]@[v].0 as int)
                    && votes@[q]@[v].1 > 0,
            forall|q: int, v1: int, v2: int|
                0 <= q < line_count && 0 <= v1 < v2 < votes@[q]@.len() ==> (#[trigger] votes@[q]@[v1]).0
                    != (#[trigger] votes@[q]@[v2]).0,
            forall|q: int, s: int|
                #[trigger] vote_count(t1, t2, bwd, src, dst, id as int, q, s) > 0 ==> 0 <= q < line_count
                    && exists|v: int| 0 <= v < votes@[q]@.len() && (#[trigger] votes@[q]@[v]).0 == s,
        decreases node_count - id,
    {
        let ghost before_id = id as int;
        proof {
            lemma_count_bounds(t1, t2, bwd, src, dst, before_id, 0, 0);
        }
        let destination_node = destination_tree.node(id);
        let mut cast: Option<(usize, usize)> = None;
        if destination_node.children.len() == 0 {
            if let Some(source_node_id) = mapping.get_src(id) {
                let destination_line = line_index_at_byte(destination_lines, destination_node.start_byte);
                // A mapping that fits the trees names only existing nodes.
                let source_line = if source_node_id < source_tree.node_count() {
                    line_index_at_byte(source_lines, source_tree.node(source_node_id).start_byte)
                } else {
                    None
                };
                if let (Some(dl), Some(sl)) = (destination_line, source_line) {
                    cast = Some((dl, sl));
                }
            }
        }
        // What node `id` votes for, if anything.
        proof {
            match cast {
                Some((dl, sl)) => {
                    assert(leaf_votes(t1, t2, bwd, src, dst, before_id, dl as int, sl as int));
                    assert forall|q: int, s: int| leaf_votes(t1, t2, bwd, src, dst, before_id, q, s) implies q == dl
                        && s == sl by {
                        lemma_contains_offset_unique(dst, q, dl as int, t2[before_id].start_byte as int);
                        lemma_contains_offset_unique(src, s, sl as int, t1[bwd[id] as int].start_byte as int);
                    }
                },
                None => {
                    assert forall|q: int, s: int| !leaf_votes(t1, t2, bwd, src, dst, before_id, q, s) by {
                        if leaf_votes(t1, t2, bwd, src, dst, before_id, q, s) {
                            assert(t2[before_id].children@.len() == 0);
                            assert(bwd.contains_key(id));
                        }
                    }
                },
            }
        }
        if let Some((dl, sl)) = cast {
            proof {
                assert(vote_count(t1, t2, bwd, src, dst, before_id + 1, dl as int, sl as int) == vote_count(
                    t1,
                    t2,
                    bwd,
                    src,
                    dst,
                    before_id,
                    dl as int,
                    sl as int,
                ) + 1);
                lemma_count_bounds(t1, t2, bwd, src, dst, before_id, dl as int, sl as int);
                assert(casts_vote(t1, t2, bwd, src, dst, before_id));
            }
            let mut line_votes: Vec<(usize, usize)> = Vec::new();
            let ghost all_votes = votes@;
            std::mem::swap(&mut line_votes, &mut votes[dl]);
            let ghost old_votes = line_votes@;
            proof {
                assert(old_votes == all_votes[dl as int]@);
                assert forall|w: int| #![trigger old_votes[w]] 0 <= w < old_votes.len() implies old_votes[w].1 <= total by {
                    assert(all_votes[dl as int]@[w] == old_votes[w]);
                    lemma_count_bounds(t1, t2, bwd, src, dst, before_id, dl as int, old_votes[w].0 as int);
                }
                assert forall|w1: int, w2: int| 0 <= w1 < w2 < old_votes.len() implies (#[trigger] old_votes[w1]).0
                    != (#[trigger] old_votes[w2]).0 by {
                    assert(all_votes[dl as int]@[w1] == old_votes[w1]);
                    assert(all_votes[dl as int]@[w2] == old_votes[w2]);
                }
            }
            let mut v: usize = 0;
            let mut found = false;
            while v < line_votes.len()
                invariant
                    line_votes@.len() == old_votes.len(),
                    total == votes_cast(t1, t2, bwd, src, dst, before_id),
                    total < node_count,
                    sl < source_lines@.len(),
                    v <= line_votes@.len(),
                    forall|w: int|
                        #![trigger line_votes@[w]]
                        0 <= w < line_votes@.len() && !(found && line_votes@[w].0 == sl) ==> line_votes@[w]
                            == old_votes[w],
                    forall|w: int|
                        #![trigger line_votes@[w]]
                        0 <= w < line_votes@.len() && found && line_votes@[w].0 == sl ==> line_votes@[w].1
                            == old_votes[w].1 + 1,
                    forall|w: int| #![trigger line_votes@[w]] 0 <= w < line_votes@.len() ==> line_votes@[w].0 == old_votes[w].0,
                    forall|w: int| #![trigger old_votes[w]] 0 <= w < old_votes.len() ==> old_votes[w].1 <= total,
                    forall|w1: int, w2: int|
                        0 <= w1 < w2 < old_votes.len() ==> (#[trigger] old_votes[w1]).0 != (#[trigger] old_votes[w2]).0,
                    !found ==> forall|w: int| 0 <= w < v ==> (#[trigger] old_votes[w]).0 != sl,
                    found ==> exists|w: int| 0 <= w < v && (#[trigger] old_votes[w]).0 == sl,
                decreases line_votes@.len() - v,
            {
                if line_votes[v].0 == sl && !found {
                    let bumped = (sl, line_votes[v].1 + 1);
                    line_votes.set(v, bumped);
                    found = true;
                }
                v += 1;
            }
            if !found {
                line_votes.push((sl, 1));
            }
            let ghost new_line = line_votes@;
            std::mem::swap(&mut line_votes, &mut votes[dl]);
            total += 1;
            proof {
                let before_votes = all_votes;
                let n1 = before_id + 1;
                assert(votes@[dl as int]@ == new_line);
                assert forall|q: int| 0 <= q < line_count && q != dl implies #[trigger] votes@[q] == before_votes[q] by {
                }
                assert forall|q: int, w: int|
                    #![trigger votes@[q]@[w]]
                    0 <= q < line_count && 0 <= w < votes@[q]@.len() implies votes@[q]@[w].0 < source_lines@.len()
                        && votes@[q]@[w].1 == vote_count(t1, t2, bwd, src, dst, n1, q, votes@[q]@[w].0 as int)
                        && votes@[q]@[w].1 > 0 by {
                    if q != dl {
                        assert(votes@[q] == before_votes[q]);
                        assert(votes@[q]@[w] == before_votes[q]@[w]);
                    } else if w < old_votes.len() {
                        assert(old_votes[w] == before_votes[q]@[w]);
                    }
                }
                assert forall|q: int, v1: int, v2: int|
                    0 <= q < line_count && 0 <= v1 < v2 < votes@[q]@.len() implies (#[trigger] votes@[q]@[v1]).0
                        != (#[trigger] votes@[q]@[v2]).0 by {
                    if q != dl {
                        assert(votes@[q] == before_votes[q]);
                    } else {
                        if v2 < old_votes.len() {
                            assert(old_votes[v1] == before_votes[q]@[v1]);
                            assert(old_votes[v2] == before_votes[q]@[v2]);
                        } else {
                            assert(old_votes[v1] == before_votes[q]@[v1]);
                        }
                    }
                }
                assert forall|q: int, s: int| #[trigger] vote_count(t1, t2, bwd, src, dst, n1, q, s) > 0 implies 0
                    <= q < line_count && exists|v: int| 0 <= v < votes@[q]@.len() && (#[trigger] votes@[q]@[v]).0 == s by {
                    if q == dl && s == sl {
                        if found {
                            let w = choose|w: int| 0 <= w < old_votes.len() && (#[trigger] old_votes[w]).0 == sl;
                            assert(votes@[q]@[w].0 == s);
                        } else {
                            assert(votes@[q]@[old_votes.len() as int].0 == s);
                        }
                    } else {
                        assert(vote_count(t1, t2, bwd, src, dst, before_id, q, s) > 0);
                        let v = choose|v: int| 0 <= v < before_votes[q]@.len() && (#[trigger] before_votes[q]@[v]).0 == s;
                        if q != dl {
                            assert(votes@[q] == before_votes[q]);
                            assert(votes@[q]@[v].0 == s);
                        } else {
                            assert(old_votes[v] == before_votes[q]@[v]);
                            assert(votes@[q]@[v].0 == s);
                        }
                    }
                }
            }
        } else {
            proof {
                assert(!casts_vote(t1, t2, bwd, src, dst, before_id));
                assert forall|q: int, s: int|
                    #[trigger] vote_count(t1, t2, bwd, src, dst, before_id + 1, q, s) == vote_count(
                        t1,
                        t2,
                        bwd,
                        src,
                        dst,
                        before_id,
                        q,
                        s,
                    ) by {
                }
            }
        }
        id += 1;
    }
    let ghost n2 = node_count as int;

    // Each destination line's majority; the rank sorts strongest first.
    let mut candidates: Vec<(usize, usize, usize)> = Vec::new();
    let mut dl: usize = 0;
    while dl < line_count
        invariant
            line_count == destination_lines@.len(),
            votes@.len() == line_count,
            t2.len() <= usize::MAX,
            n2 == t2.len(),
            total == votes_cast(t1, t2, bwd, src, dst, n2),
            forall|q: int, v: int|
                #![trigger votes@[q]@[v]]
                0 <= q < line_count && 0 <= v < votes@[q]@.len() ==> votes@[q]@[v].0 < source_lines@.len()
                    && votes@[q]@[v].1 == vote_count(t1, t2, bwd, src, dst, n2, q, votes@[q]@[v].0 as int)
                    && votes@[q]@[v].1 > 0,
            forall|q: int, s: int|
                #[trigger] vote_count(t1, t2, bwd, src, dst, n2, q, s) > 0 ==> 0 <= q < line_count && exists|v: int|
                    0 <= v < votes@[q]@.len() && (#[trigger] votes@[q]@[v]).0 == s,
            dl <= line_count,
            forall|k: int|
                0 <= k < candidates@.len() ==> (#[trigger] candidates@[k]).1 < dl && candidates@[k].2
                    < source_lines@.len() && majority(t1, t2, bwd, src, dst, candidates@[k].1 as int, candidates@[k].2 as int)
                    && candidates@[k] == candidate_of(t1, t2, bwd, src, dst, candidates@[k].1 as int, candidates@[k].2 as int),
            forall|k1: int, k2: int|
                0 <= k1 < k2 < candidates@.len() ==> (#[trigger] candidates@[k1]).1 < (#[trigger] candidates@[k2]).1,
            forall|q: int, s: int|
                #[trigger] vote_count(t1, t2, bwd, src, dst, n2, q, s) > 0 && q < dl ==> exists|k: int|
                    0 <= k < candidates@.len() && (#[trigger] candidates@[k]).1 == q,
        decreases line_count - dl,
    {
        let line_votes = &votes[dl];
        if line_votes.len() > 0 {
            let mut best_line = line_votes[0].0;
            let mut best_count = line_votes[0].1;
            proof {
                assert(votes@[dl as int]@[0] == line_votes@[0]);
            }
            let mut v: usize = 1;
            while v < line_votes.len()
                invariant
                    *line_votes == votes@[dl as int],
                    dl < line_count,
                    votes@.len() == line_count,
                    forall|q: int, w: int|
                        #![trigger votes@[q]@[w]]
                        0 <= q < line_count && 0 <= w < votes@[q]@.len() ==> votes@[q]@[w].0 < source_lines@.len()
                            && votes@[q]@[w].1 == vote_count(t1, t2, bwd, src, dst, n2, q, votes@[q]@[w].0 as int)
                            && votes@[q]@[w].1 > 0,
                    best_line < source_lines@.len(),
                    best_count == vote_count(t1, t2, bwd, src, dst, n2, dl as int, best_line as int),
                    best_count > 0,
                    forall|w: int|
                        #![trigger line_votes@[w]]
                        0 <= w < v ==> line_votes@[w].1 < best_count || (line_votes@[w].1 == best_count
                            && best_line <= line_votes@[w].0),
                    1 <= v <= line_votes@.len(),
                decreases line_votes@.len() - v,
            {
                let (source_line, count) = line_votes[v];
                proof {
                    assert(votes@[dl as int]@[v as int] == line_votes@[v as int]);
                }
                if count > best_count || (count == best_count && source_line < best_line) {
                    best_line = source_line;
                    best_count = count;
                }
                v += 1;
            }
            proof {
                let n = t2.len() as int;
                assert forall|s2: int| #[trigger] vote_count(t1, t2, bwd, src, dst, n, dl as int, s2) < best_count || (
                vote_count(t1, t2, bwd, src, dst, n, dl as int, s2) == best_count && best_line <= s2) by {
                    if vote_count(t1, t2, bwd, src, dst, n, dl as int, s2) > 0 {
                        let w = choose|w: int| 0 <= w < votes@[dl as int]@.len() && (#[trigger] votes@[dl as int]@[w]).0 == s2;
                        assert(line_votes@[w] == votes@[dl as int]@[w]);
                    }
                }
                assert(majority(t1, t2, bwd, src, dst, dl as int, best_line as int));
                lemma_count_bounds(t1, t2, bwd, src, dst, n2, dl as int, best_line as int);
            }
            let ghost before = candidates@;
            candidates.push((total - best_count, dl, best_line));
            proof {
                assert forall|k: int| 0 <= k < candidates@.len() implies (#[trigger] candidates@[k]).1 < dl + 1
                    && candidates@[k].2 < source_lines@.len() && majority(t1, t2, bwd, src, dst, candidates@[k].1 as int, candidates@[k].2 as int)
                    && candidates@[k] == candidate_of(t1, t2, bwd, src, dst, candidates@[k].1 as int, candidates@[k].2 as int) by {
                    if k < before.len() {
                        assert(candidates@[k] == before[k]);
                    }
                }
                assert forall|k1: int, k2: int| 0 <= k1 < k2 < candidates@.len() implies (#[trigger] candidates@[k1]).1
                    < (#[trigger] candidates@[k2]).1 by {
                    assert(candidates@[k1] == before[k1]);
                    if k2 < before.len() {
                        assert(candidates@[k2] == before[k2]);
                    }
                }
                assert forall|q: int, s: int| #[trigger] vote_count(t1, t2, bwd, src, dst, n2, q, s) > 0 && q < dl + 1 implies exists|k: int|
                    0 <= k < candidates@.len() && (#[trigger] candidates@[k]).1 == q by {
                    if q < dl {
                        let k = choose|k: int| 0 <= k < before.len() && (#[trigger] before[k]).1 == q;
                        assert(candidates@[k] == before[k]);
                    } else {
                        assert(candidates@[before.len() as int].1 == q);
                    }
                }
            }
        } else {
            proof {
                assert forall|q: int, s: int| #[trigger] vote_count(t1, t2, bwd, src, dst, n2, q, s) > 0 && q < dl + 1 implies exists|k: int|
                    0 <= k < candidates@.len() && (#[trigger] candidates@[k]).1 == q by {
                    if q == dl {
                        let v = choose|v: int| 0 <= v < votes@[q]@.len() && (#[trigger] votes@[q]@[v]).0 == s;
                    }
                }
            }
        }
        dl += 1;
    }

    // Strongest anchors claim their source line first; ties break on the
    // destination index so the result is deterministic.
    let ghost unsorted = candidates@;
    proof {
        assert(unsorted.no_duplicates()) by {
            assert forall|a: int, b: int| 0 <= a < unsorted.len() && 0 <= b < unsorted.len() && a != b implies unsorted[a]
                != unsorted[b] by {
                if a < b {
                    assert(unsorted[a].1 < unsorted[b].1);
                } else {
                    assert(unsorted[b].1 < unsorted[a].1);
                }
            }
        }
        unsorted.lemma_multiset_has_no_duplicates();
    }
    sort_triples(&mut candidates);
    proof {
        broadcast use vstd::seq_lib::group_to_multiset_ensures;

        assert forall|x: (usize, usize, usize)| candidates@.to_multiset().contains(x) implies candidates@.to_multiset().count(
            x,
        ) == 1 by {
        }
        candidates@.lemma_multiset_has_no_duplicates_conv();
        assert forall|k: int| 0 <= k < candidates@.len() implies (#[trigger] candidates@[k]).1
            < destination_lines@.len() && candidates@[k].2 < source_lines@.len() && voted(t1, t2, bwd, src, dst, candidates@[k].1 as int, candidates@[k].2 as int)
            && majority(t1, t2, bwd, src, dst, candidates@[k].1 as int, candidates@[k].2 as int)
            && candidates@[k] == candidate_of(t1, t2, bwd, src, dst, candidates@[k].1 as int, candidates@[k].2 as int) by {
            assert(unsorted.contains(candidates@[k]));
            let w = choose|w: int| 0 <= w < unsorted.len() && unsorted[w] == candidates@[k];
            assert(unsorted[w].1 < line_count);
            lemma_count_voted(t1, t2, bwd, src, dst, n2, candidates@[k].1 as int, candidates@[k].2 as int);
        }
        assert forall|d: int, s: int| #[trigger] vote_count(t1, t2, bwd, src, dst, n2, d, s) > 0 implies exists|k: int|
            0 <= k < candidates@.len() && (#[trigger] candidates@[k]).1 == d by {
            let w = choose|w: int| 0 <= w < unsorted.len() && (#[trigger] unsorted[w]).1 == d;
            assert(unsorted.contains(unsorted[w]));
            assert(candidates@.to_multiset().contains(unsorted[w]));
            let k = choose|k: int| 0 <= k < candidates@.len() && candidates@[k] == unsorted[w];
            assert(candidates@[k].1 == d);
        }
        assert forall|k1: int, k2: int| 0 <= k1 < k2 < candidates@.len() implies lex_le(
            #[trigger] candidates@[k1],
            #[trigger] candidates@[k2],
        ) && candidates@[k1] != candidates@[k2] by {
        }
        lemma_vote_ranking_unique(t1, t2, bwd, src, dst, candidates@);
    }
    candidates
}

/// Source line `s` is taken in `m`.
pub open spec fn takes(m: Map<usize, usize>, s: usize) -> bool {
    exists|d: usize| #[trigger] m.contains_key(d) && m[d] == s
}

/// The anchors accepted from the first `k` candidates, strongest first: a
/// candidate is accepted unless an earlier one took its source line or its
/// destination line.
pub open spec fn accepted(cands: Seq<(usize, usize, usize)>, k: int) -> Map<usize, usize>
    decreases k,
{
    if k <= 0 {
        Map::empty()
    } else {
        let prev = accepted(cands, k - 1);
        let c = cands[k - 1];
        if takes(prev, c.2) || prev.contains_key(c.1) {
            prev
        } else {
            prev.insert(c.1, c.2)
        }
    }
}

/// No key of `m` lies strictly between `a` and `b`.
pub open spec fn none_between(m: Map<usize, usize>, a: int, b: int) -> bool {
    forall|x: usize| a < x < b ==> !#[trigger] m.contains_key(x)
}

/// No value of `m` lies strictly between `a` and `b`.
pub open spec fn no_source_between(m: Map<usize, usize>, a: int, b: int) -> bool {
    forall|x: usize| #[trigger] m.contains_key(x) ==> !(a < m[x] < b)
}

/// Source line `s` lies in the stretch of source lines that follows the
/// source line of the anchor just before destination line `d` (or that
/// opens the file, when no anchor comes before `d`), up to the next source
/// line of any anchor.
pub open spec fn between_neighbours(m: Map<usize, usize>, d: usize, s: usize) -> bool {
    &&& forall|da: usize| #[trigger]
        m.contains_key(da) && da < d && none_between(m, da as int, d as int) ==> m[da] < s && no_source_between(
            m,
            m[da] as int,
            s as int,
        )
    &&& (forall|da: usize| #[trigger] m.contains_key(da) ==> da > d) ==> no_source_between(m, -1, s as int)
}

/// Gap `g` (destination lines `g.0..g.1`, source lines `g.2..g.3`) follows
/// an anchor of `m` on both sides, or opens both files: no anchor lies in
/// either range, and the destination range starts right after an anchor
/// exactly when the source range starts right after that anchor's line.
spec fn gap_ok(m: Map<usize, usize>, dc: nat, sc: nat, g: (usize, usize, usize, usize)) -> bool {
    &&& g.0 <= g.1 <= dc
    &&& g.2 <= g.3 <= sc
    &&& none_between(m, g.0 as int - 1, g.1 as int)
    &&& g.0 > 0 ==> m.contains_key((g.0 - 1) as usize) && m[(g.0 - 1) as usize] + 1 == g.2
    &&& g.0 == 0 ==> g.2 == 0
    &&& no_source_between(m, g.2 as int - 1, g.3 as int)
    &&& g.1 == dc || m.contains_key(g.1)
    &&& g.3 == sc || exists|x: usize| #[trigger] m.contains_key(x) && m[x] == g.3
}

/// The line numbers `a..b`, in order.
pub open spec fn line_range(a: int, b: int) -> Seq<usize> {
    Seq::new((b - a) as nat, |k: int| (a + k) as usize)
}

/// Destination lines `a..b` and source lines `c..e` make up a whole gap of
/// the anchors `m`: both ranges open the file or start right after the two
/// lines of one anchor, and each runs up to the next anchored line on its
/// side (or the end of the file).
pub open spec fn anchor_gap(m: Map<usize, usize>, dc: nat, sc: nat, a: int, b: int, c: int, e: int) -> bool {
    &&& 0 <= a <= b <= dc
    &&& 0 <= c <= e <= sc
    &&& none_between(m, a - 1, b)
    &&& (a == 0 && c == 0) || (a > 0 && m.contains_key((a - 1) as usize) && m[(a - 1) as usize] + 1 == c)
    &&& b == dc || m.contains_key(b as usize)
    &&& no_source_between(m, c - 1, e)
    &&& e == sc || exists|x: usize| #[trigger] m.contains_key(x) && m[x] == e
}

/// Inside the gap `a..b`, `c..e`, the pairs of `r` are a longest common
/// subsequence of identical lines, whenever the gap is small enough for the
/// exact search (a table of at most a million cells).
#[verifier::opaque]
pub open spec fn gap_aligned(
    r: Map<usize, usize>,
    dl: Seq<FileLine>,
    sl: Seq<FileLine>,
    a: int,
    b: int,
    c: int,
    e: int,
) -> bool {
    let gd = line_range(a, b);
    let gs = line_range(c, e);
    gd.len() * gs.len() <= 1_000_000 ==> exists|idx: Seq<(int, int)>|
        #[trigger] common_from(gd, gs, dl, sl, idx, 0, 0) && idx.len() == lcs_len(gd, gs, dl, sl, 0, 0) && (forall|k: int|
            0 <= k < idx.len() ==> r.contains_key(gd[(#[trigger] idx[k]).0]) && r[gd[idx[k].0]] == gs[idx[k].1])
            && (forall|d: usize|
            a <= d < b && #[trigger] r.contains_key(d) ==> exists|k: int|
                0 <= k < idx.len() && gd[(#[trigger] idx[k]).0] == d)
}

/// Two whole gaps starting at the same destination line are the same gap.
proof fn lemma_anchor_gap_unique(
    m: Map<usize, usize>,
    dc: nat,
    sc: nat,
    a: int,
    b1: int,
    c1: int,
    e1: int,
    b2: int,
    c2: int,
    e2: int,
)
    requires
        anchor_gap(m, dc, sc, a, b1, c1, e1),
        anchor_gap(m, dc, sc, a, b2, c2, e2),
        dc <= usize::MAX,
    ensures
        b1 == b2 && c1 == c2 && e1 == e2,
{
    if b1 < b2 {
        assert(m.contains_key(b1 as usize));
    } else if b2 < b1 {
        assert(m.contains_key(b2 as usize));
    }
    assert(c1 == c2);
    if e1 < e2 {
        let x = choose|x: usize| #[trigger] m.contains_key(x) && m[x] == e1;
        assert(c2 - 1 < m[x] < e2);
    } else if e2 < e1 {
        let x = choose|x: usize| #[trigger] m.contains_key(x) && m[x] == e2;
        assert(c1 - 1 < m[x] < e1);
    }

}

/// Gaps listed by increasing start do not overlap on either side.
proof fn lemma_gaps_disjoint(m: Map<usize, usize>, dc: nat, sc: nat, gaps: Seq<(usize, usize, usize, usize)>)
    requires
        pairing_ok(m, dc, sc),
        forall|q: int| 0 <= q < gaps.len() ==> gap_ok(m, dc, sc, #[trigger] gaps[q]),
        forall|p: int, q: int| 0 <= p < q < gaps.len() ==> (#[trigger] gaps[p]).0 < (#[trigger] gaps[q]).0,
    ensures
        forall|p: int, q: int| 0 <= p < q < gaps.len() ==> (#[trigger] gaps[p]).1 <= (#[trigger] gaps[q]).0,
        forall|p: int, q: int|
            0 <= p < gaps.len() && 0 <= q < gaps.len() && p != q ==> (#[trigger] gaps[p]).3 <= (#[trigger] gaps[q]).2
                || gaps[q].3 <= gaps[p].2,
{
    assert forall|p: int, q: int| 0 <= p < q < gaps.len() implies (#[trigger] gaps[p]).1 <= (#[trigger] gaps[q]).0 by {
        let gp = gaps[p];
        let gq = gaps[q];
        assert(gap_ok(m, dc, sc, gp) && gap_ok(m, dc, sc, gq));
        assert(gq.0 > 0);
        assert(m.contains_key((gq.0 - 1) as usize));
    }
    assert forall|p: int, q: int|
        0 <= p < gaps.len() && 0 <= q < gaps.len() && p != q implies (#[trigger] gaps[p]).3 <= (#[trigger] gaps[q]).2
            || gaps[q].3 <= gaps[p].2 by {
        let gp = gaps[p];
        let gq = gaps[q];
        assert(gap_ok(m, dc, sc, gp) && gap_ok(m, dc, sc, gq));
        if gp.0 != gq.0 && gp.2 == gq.2 {
            if gp.2 == 0 {
                assert(gp.0 == 0 && gq.0 == 0);
            } else {
                assert(m[(gp.0 - 1) as usize] == m[(gq.0 - 1) as usize]);
            }
        }
        if p < q {
            assert(gp.0 < gq.0);
        } else {
            assert(gq.0 < gp.0);
        }
        if gp.2 < gq.2 {
            assert(gq.0 > 0);
            assert(m.contains_key((gq.0 - 1) as usize));
        } else if gq.2 < gp.2 {
            assert(gp.0 > 0);
            assert(m.contains_key((gp.0 - 1) as usize));
        }
    }
}

/// A pair inside a gap sits in the stretch after its anchor.
proof fn lemma_gap_pair_between(m: Map<usize, usize>, dc: nat, sc: nat, g: (usize, usize, usize, usize), d: usize, s: usize)
    requires
        gap_ok(m, dc, sc, g),
        g.0 <= d < g.1,
        g.2 <= s < g.3,
    ensures
        between_neighbours(m, d, s),
{
    assert forall|da: usize| #[trigger] m.contains_key(da) && da < d && none_between(m, da as int, d as int) implies m[da]
        < s && no_source_between(m, m[da] as int, s as int) by {
        if g.0 == 0 {
            assert(!m.contains_key(da));
        } else if da != (g.0 - 1) as usize {
            if da < g.0 - 1 {
                assert(!m.contains_key((g.0 - 1) as usize));
            } else {
                assert(!m.contains_key(da));
            }
        }
    }
    if forall|da: usize| #[trigger] m.contains_key(da) ==> da > d {
        if g.0 > 0 {
            assert(m.contains_key((g.0 - 1) as usize));
        }
    }
}

/// Every listed anchor source at or after `from` is at or after `r`, and
/// the list holds every anchor: no anchor source lies in `from..r`.
proof fn lemma_bound_clear(anchored: Map<usize, usize>, anchors: Seq<(usize, usize)>, from: int, r: int)
    requires
        forall|q: int|
            0 <= q < anchors.len() ==> anchored.contains_key((#[trigger] anchors[q]).0) && anchored[anchors[q].0]
                == anchors[q].1,
        forall|x: usize| #[trigger] anchored.contains_key(x) ==> exists|q: int|
            0 <= q < anchors.len() && (#[trigger] anchors[q]).0 == x,
        forall|q: int| 0 <= q < anchors.len() && (#[trigger] anchors[q]).1 >= from ==> anchors[q].1 >= r,
    ensures
        no_source_between(anchored, from - 1, r),
{
    assert forall|x: usize| #[trigger] anchored.contains_key(x) implies !(from - 1 < anchored[x] < r) by {
        let q = choose|q: int| 0 <= q < anchors.len() && (#[trigger] anchors[q]).0 == x;
    }
}

/// The smallest source line of a listed anchor that is at least `from`, or
/// `src_count` when there is none: where the source stretch from `from`
/// ends.
fn source_bound(anchors: &Vec<(usize, usize)>, from: usize, src_count: usize) -> (r: usize)
    requires
        from <= src_count,
    ensures
        from <= r <= src_count,
        forall|q: int| 0 <= q < anchors@.len() && (#[trigger] anchors@[q]).1 >= from ==> anchors@[q].1 >= r,
        r == src_count || exists|q: int| 0 <= q < anchors@.len() && (#[trigger] anchors@[q]).1 == r,
{
    let mut r = src_count;
    let mut q: usize = 0;
    while q < anchors.len()
        invariant
            from <= r <= src_count,
            q <= anchors@.len(),
            forall|p: int| 0 <= p < q && (#[trigger] anchors@[p]).1 >= from ==> anchors@[p].1 >= r,
            r == src_count || exists|p: int| 0 <= p < anchors@.len() && (#[trigger] anchors@[p]).1 == r,
        decreases anchors@.len() - q,
    {
        let (_, s) = anchors[q];
        if s >= from && s < r {
            r = s;
        }
        q += 1;
    }
    r
}

/// `pairing` is what the line pairing makes of the votes: every anchor
/// accepted from the vote ranking is kept, every other pair joins two
/// identical lines lying in the stretches that follow one anchor on both
/// sides, and inside each such gap the pairs are a longest common
/// subsequence of identical lines (for gaps small enough for the exact
/// search).
pub open spec fn pairing_from_votes(
    t1: Seq<Node>,
    t2: Seq<Node>,
    bwd: Map<usize, usize>,
    src: Seq<FileLine>,
    dst: Seq<FileLine>,
    pairing: Map<usize, usize>,
) -> bool {
    let ranking = vote_ranking(t1, t2, bwd, src, dst);
    let anchors = accepted(ranking, ranking.len() as int);
    &&& forall|d: usize| #[trigger] anchors.contains_key(d) ==> pairing.contains_key(d) && pairing[d] == anchors[d]
    &&& forall|d: usize|
        #[trigger] pairing.contains_key(d) && !anchors.contains_key(d) ==> identical_lines(
            dst[d as int],
            src[pairing[d] as int],
        ) && between_neighbours(anchors, d, pairing[d])
    &&& forall|a: int, b: int, c: int, e: int|
        #[trigger] anchor_gap(anchors, dst.len(), src.len(), a, b, c, e) ==> gap_aligned(pairing, dst, src, a, b, c, e)
}

/// Phase 2: accept anchors (strongest first, one source line each), then
/// align the lines inside each gap by identical trimmed text, keeping their
/// relative order. A gap follows an anchor in both files: the destination
/// lines up to the next anchor and the source lines up to the next anchored
/// source line, so that lines after moved blocks still find their partner.
#[verifier::rlimit(80)]
#[verifier::spinoff_prover]
fn phase2_align(
    candidates: Vec<(usize, usize, usize)>,
    source_lines: &[FileLine],
    destination_lines: &[FileLine],
    Ghost(t1): Ghost<Seq<Node>>,
    Ghost(t2): Ghost<Seq<Node>>,
    Ghost(bwd): Ghost<Map<usize, usize>>,
) -> (r: HashMap<usize, usize>)
    requires
        forall|k: int|
            0 <= k < candidates@.len() ==> (#[trigger] candidates@[k]).1 < destination_lines@.len()
                && candidates@[k].2 < source_lines@.len(),
        forall|k: int|
            0 <= k < candidates@.len() ==> voted(
                t1,
                t2,
                bwd,
                source_lines@,
                destination_lines@,
                (#[trigger] candidates@[k]).1 as int,
                candidates@[k].2 as int,
            ),
    ensures
        pairing_ok(r@, destination_lines@.len(), source_lines@.len()),
        forall|d: usize|
            #[trigger] r@.contains_key(d) ==> pair_justified(
                t1,
                t2,
                bwd,
                source_lines@,
                destination_lines@,
                d as int,
                r@[d] as int,
            ),
        forall|d: usize|
            #[trigger] accepted(candidates@, candidates@.len() as int).contains_key(d) ==> r@.contains_key(d)
                && r@[d] == accepted(candidates@, candidates@.len() as int)[d],
        forall|d: usize|
            #[trigger] r@.contains_key(d) && !accepted(candidates@, candidates@.len() as int).contains_key(d)
                ==> identical_lines(destination_lines@[d as int], source_lines@[r@[d] as int]) && between_neighbours(
                accepted(candidates@, candidates@.len() as int),
                d,
                r@[d],
            ),
        forall|a: int, b: int, c: int, e: int|
            #[trigger] anchor_gap(
                accepted(candidates@, candidates@.len() as int),
                destination_lines@.len(),
                source_lines@.len(),
                a,
                b,
                c,
                e,
            ) ==> gap_aligned(r@, destination_lines@, source_lines@, a, b, c, e),
{
    let ghost src = source_lines@;
    let ghost dst = destination_lines@;
    let dst_count = destination_lines.len();
    let src_count = source_lines.len();
    let mut result: HashMap<usize, usize> = HashMap::new();
    let mut used_source_lines: HashSet<usize> = HashSet::new();

    let mut k: usize = 0;
    while k < candidates.len()
        invariant
            dst_count == destination_lines@.len(),
            src_count == source_lines@.len(),
            forall|q: int|
                0 <= q < candidates@.len() ==> (#[trigger] candidates@[q]).1 < dst_count && candidates@[q].2
                    < src_count,
            k <= candidates@.len(),
            pairing_ok(result@, dst_count as nat, src_count as nat),
            src == source_lines@,
            dst == destination_lines@,
            forall|q: int|
                0 <= q < candidates@.len() ==> voted(t1, t2, bwd, src, dst, (#[trigger] candidates@[q]).1 as int, candidates@[q].2 as int),
            forall|d: usize| #[trigger] result@.contains_key(d) ==> pair_justified(t1, t2, bwd, src, dst, d as int, result@[d] as int),
            forall|d: usize| #[trigger] result@.contains_key(d) ==> used_source_lines@.contains(result@[d]),
            forall|s: usize| #[trigger] used_source_lines@.contains(s) ==> exists|d: usize| #[trigger] result@.contains_key(d) && result@[d] == s,
            result@ == accepted(candidates@, k as int),
        decreases candidates@.len() - k,
    {
        let (_, destination_line, source_line) = candidates[k];
        proof {
            assert(candidates@[k as int] == (candidates@[k as int].0, destination_line, source_line));
            if takes(result@, source_line) {
                let d = choose|d: usize| #[trigger] result@.contains_key(d) && result@[d] == source_line;
                assert(used_source_lines@.contains(result@[d]));
            }
        }
        if !used_source_lines.contains(&source_line) && !result.contains_key(&destination_line) {
            insert_pair(&mut result, &mut used_source_lines, destination_line, source_line, Ghost(dst_count as nat), Ghost(src_count as nat));
        }
        k += 1;
    }
    let ghost anchor_map = result@;

    // Collect anchors sorted by destination index to define gap boundaries.
    let mut anchors: Vec<(usize, usize)> = Vec::new();
    let mut d: usize = 0;
    let ghost anchored = result@;
    while d < dst_count
        invariant
            d <= dst_count,
            result@ == anchored,
            pairing_ok(result@, dst_count as nat, src_count as nat),
            forall|q: int| 0 <= q < anchors@.len() ==> (#[trigger] anchors@[q]).0 < d && anchors@[q].1 < src_count,
            forall|p: int, q: int| 0 <= p < q < anchors@.len() ==> (#[trigger] anchors@[p]).0 < (#[trigger] anchors@[q]).0,
            forall|q: int|
                0 <= q < anchors@.len() ==> anchored.contains_key((#[trigger] anchors@[q]).0) && anchored[anchors@[q].0]
                    == anchors@[q].1,
            forall|x: usize| x < d && #[trigger] anchored.contains_key(x) ==> exists|q: int| 0 <= q < anchors@.len() && (#[trigger] anchors@[q]).0 == x,
        decreases dst_count - d,
    {
        if let Some(s) = result.get(&d) {
            let ghost before = anchors@;
            anchors.push((d, *s));
            proof {
                assert forall|q: int| 0 <= q < anchors@.len() implies anchored.contains_key((#[trigger] anchors@[q]).0)
                    && anchored[anchors@[q].0] == anchors@[q].1 by {
                    if q < before.len() {
                        assert(anchors@[q] == before[q]);
                    }
                }
                assert forall|x: usize| x < d + 1 && #[trigger] anchored.contains_key(x) implies exists|q: int|
                    0 <= q < anchors@.len() && (#[trigger] anchors@[q]).0 == x by {
                    if x < d {
                        let q = choose|q: int| 0 <= q < before.len() && (#[trigger] before[q]).0 == x;
                        assert(anchors@[q] == before[q]);
                    } else {
                        assert(anchors@[before.len() as int].0 == x);
                    }
                }
                assert forall|q: int| 0 <= q < anchors@.len() implies (#[trigger] anchors@[q]).0 < d + 1 && anchors@[q].1 < src_count by {
                    if q < before.len() {
                        assert(anchors@[q] == before[q]);
                    }
                }
                assert forall|p: int, q: int| 0 <= p < q < anchors@.len() implies (#[trigger] anchors@[p]).0 < (#[trigger] anchors@[q]).0 by {
                    if q < before.len() {
                        assert(anchors@[p] == before[p] && anchors@[q] == before[q]);
                    } else {
                        assert(anchors@[p] == before[p]);
                    }
                }
            }
        }
        d += 1;
    }

    let ghost dc = dst_count as nat;
    let ghost sc = src_count as nat;
    proof {
        // Every anchor is listed, so no anchor lies beyond the list's ends
        // or between two consecutive entries.
        assert forall|x: usize| #[trigger] anchored.contains_key(x) implies x < dst_count && exists|q: int|
            0 <= q < anchors@.len() && (#[trigger] anchors@[q]).0 == x by {
        }
    }
    // Each gap follows an anchor: destination lines up to the next anchor,
    // source lines up to the next anchored source line, whether or not the
    // anchors cross. The first gap opens both files.
    let mut gaps: Vec<(usize, usize, usize, usize)> = Vec::new();
    let first_bound = source_bound(&anchors, 0, src_count);
    let first_destination = if anchors.len() == 0 {
        dst_count
    } else {
        anchors[0].0
    };
    proof {
        lemma_bound_clear(anchored, anchors@, 0, first_bound as int);
        assert forall|x: usize| -1 < x < first_destination implies !#[trigger] anchored.contains_key(x) by {
            if anchored.contains_key(x) {
                let q = choose|q: int| 0 <= q < anchors@.len() && (#[trigger] anchors@[q]).0 == x;
                if q > 0 {
                    assert(anchors@[0].0 < anchors@[q].0);
                }
            }
        }
    }
    proof {
        if first_bound < src_count {
            let q = choose|q: int| 0 <= q < anchors@.len() && (#[trigger] anchors@[q]).1 == first_bound;
            assert(anchored.contains_key(anchors@[q].0) && anchored[anchors@[q].0] == first_bound);
        }
        if anchors@.len() > 0 {
            assert(anchored.contains_key(anchors@[0].0));
        }
    }
    let ghost first_pushed = first_destination > 0 || first_bound > 0;
    if first_destination > 0 || first_bound > 0 {
        gaps.push((0, first_destination, 0, first_bound));
        proof {
            assert(gap_ok(anchored, dc, sc, gaps@[0]));
        }
    }
    let mut w: usize = 0;
    while w < anchors.len()
        invariant
            forall|q: int| 0 <= q < anchors@.len() ==> (#[trigger] anchors@[q]).0 < dst_count && anchors@[q].1 < src_count,
            forall|p: int, q: int| 0 <= p < q < anchors@.len() ==> (#[trigger] anchors@[p]).0 < (#[trigger] anchors@[q]).0,
            forall|q: int| 0 <= q < gaps@.len() ==> (#[trigger] gaps@[q]).1 <= dst_count && gaps@[q].3 <= src_count,
            forall|q: int|
                0 <= q < anchors@.len() ==> anchored.contains_key((#[trigger] anchors@[q]).0) && anchored[anchors@[q].0]
                    == anchors@[q].1,
            forall|x: usize| #[trigger] anchored.contains_key(x) ==> x < dst_count && exists|q: int|
                0 <= q < anchors@.len() && (#[trigger] anchors@[q]).0 == x,
            forall|q: int| 0 <= q < gaps@.len() ==> gap_ok(anchored, dc, sc, #[trigger] gaps@[q]),
            dc == dst_count,
            sc == src_count,
            w <= anchors@.len(),
            forall|p: int, q: int| 0 <= p < q < gaps@.len() ==> (#[trigger] gaps@[p]).0 < (#[trigger] gaps@[q]).0,
            w < anchors@.len() ==> forall|q: int| 0 <= q < gaps@.len() ==> (#[trigger] gaps@[q]).0 <= anchors@[w as int].0,
            forall|v: int| 0 <= v < w ==> exists|q: int| 0 <= q < gaps@.len() && (#[trigger] gaps@[q]).0 == (#[trigger] anchors@[v]).0 + 1,
            first_pushed ==> gaps@.len() > 0 && gaps@[0] == (0usize, first_destination, 0usize, first_bound),
            first_destination == (if anchors@.len() == 0 { dst_count } else { anchors@[0].0 }),
        decreases anchors@.len() - w,
    {
        let (d1, s1) = anchors[w];
        let destination_end = if w + 1 < anchors.len() {
            anchors[w + 1].0
        } else {
            dst_count
        };
        let source_end = source_bound(&anchors, s1 + 1, src_count);
        let ghost before = gaps@;
        gaps.push((d1 + 1, destination_end, s1 + 1, source_end));
        proof {
            lemma_bound_clear(anchored, anchors@, s1 + 1, source_end as int);
            if source_end < src_count {
                let q = choose|q: int| 0 <= q < anchors@.len() && (#[trigger] anchors@[q]).1 == source_end;
                assert(anchored.contains_key(anchors@[q].0) && anchored[anchors@[q].0] == source_end);
            }
            if w + 1 < anchors@.len() {
                assert(anchors@[w as int].0 < anchors@[w + 1].0);
                assert(anchored.contains_key(anchors@[w + 1].0));
            }
            assert forall|p: int, q: int| 0 <= p < q < gaps@.len() implies (#[trigger] gaps@[p]).0 < (#[trigger] gaps@[q]).0 by {
                if q < before.len() {
                    assert(gaps@[p] == before[p] && gaps@[q] == before[q]);
                } else {
                    assert(gaps@[p] == before[p]);
                }
            }
            if w + 1 < anchors@.len() {
                assert forall|q: int| 0 <= q < gaps@.len() implies (#[trigger] gaps@[q]).0 <= anchors@[w + 1].0 by {
                    if q < before.len() {
                        assert(gaps@[q] == before[q]);
                    }
                }
            }
            assert forall|v: int| 0 <= v < w + 1 implies exists|q: int| 0 <= q < gaps@.len() && (#[trigger] gaps@[q]).0 == (#[trigger] anchors@[v]).0 + 1 by {
                if v < w {
                    let q = choose|q: int| 0 <= q < before.len() && (#[trigger] before[q]).0 == anchors@[v].0 + 1;
                    assert(gaps@[q] == before[q]);
                } else {
                    assert(gaps@[before.len() as int].0 == anchors@[v].0 + 1);
                }
            }
            if first_pushed {
                assert(gaps@[0] == before[0]);
            }
            assert forall|x: usize| d1 + 1 - 1 < x < destination_end implies !#[trigger] anchored.contains_key(x) by {
                if anchored.contains_key(x) {
                    let q = choose|q: int| 0 <= q < anchors@.len() && (#[trigger] anchors@[q]).0 == x;
                    if q <= w {
                        if q < w {
                            assert(anchors@[q].0 < anchors@[w as int].0);
                        }
                    } else if q > w + 1 {
                        assert(anchors@[w + 1].0 < anchors@[q].0);
                    }
                }
            }
            assert(gap_ok(anchored, dc, sc, gaps@[before.len() as int]));
            assert forall|q: int| 0 <= q < gaps@.len() implies (#[trigger] gaps@[q]).1 <= dst_count && gaps@[q].3 <= src_count
                && gap_ok(anchored, dc, sc, gaps@[q]) by {
                if q < before.len() {
                    assert(gaps@[q] == before[q]);
                }
            }
        }
        w += 1;
    }

    // Per gap: align remaining lines with identical trimmed text, keeping
    // their relative order.  This is what pairs blank lines and bare
    // punctuation lines, which carry no tokens the mapping could see.
    proof {
        lemma_gaps_disjoint(anchored, dc, sc, gaps@);
    }
    let mut g: usize = 0;
    while g < gaps.len()
        invariant
            dst_count == destination_lines@.len(),
            src_count == source_lines@.len(),
            forall|q: int| 0 <= q < gaps@.len() ==> (#[trigger] gaps@[q]).1 <= dst_count && gaps@[q].3 <= src_count,
            g <= gaps@.len(),
            pairing_ok(result@, dst_count as nat, src_count as nat),
            src == source_lines@,
            dst == destination_lines@,
            forall|d: usize| #[trigger] result@.contains_key(d) ==> pair_justified(t1, t2, bwd, src, dst, d as int, result@[d] as int),
            forall|d: usize| #[trigger] result@.contains_key(d) ==> used_source_lines@.contains(result@[d]),
            forall|s: usize| #[trigger] used_source_lines@.contains(s) ==> exists|d: usize| #[trigger] result@.contains_key(d) && result@[d] == s,
            anchor_map == accepted(candidates@, candidates@.len() as int),
            forall|d: usize| #[trigger] anchor_map.contains_key(d) ==> result@.contains_key(d) && result@[d] == anchor_map[d],
            forall|d: usize|
                #[trigger] result@.contains_key(d) && !anchor_map.contains_key(d) ==> identical_lines(dst[d as int], src[result@[d] as int])
                    && between_neighbours(anchor_map, d, result@[d]),
            anchored == anchor_map,
            dc == dst_count,
            sc == src_count,
            forall|q: int| 0 <= q < gaps@.len() ==> gap_ok(anchored, dc, sc, #[trigger] gaps@[q]),
            forall|p: int, q: int| 0 <= p < q < gaps@.len() ==> (#[trigger] gaps@[p]).1 <= (#[trigger] gaps@[q]).0,
            forall|p: int, q: int|
                0 <= p < gaps@.len() && 0 <= q < gaps@.len() && p != q ==> (#[trigger] gaps@[p]).3 <= (#[trigger] gaps@[q]).2
                    || gaps@[q].3 <= gaps@[p].2,
            forall|d: usize|
                #[trigger] result@.contains_key(d) && !anchor_map.contains_key(d) ==> exists|q: int|
                    0 <= q < g && (#[trigger] gaps@[q]).0 <= d < gaps@[q].1 && gaps@[q].2 <= result@[d] < gaps@[q].3,
            forall|q: int|
                0 <= q < g ==> gap_aligned(
                    result@,
                    dst,
                    src,
                    (#[trigger] gaps@[q]).0 as int,
                    gaps@[q].1 as int,
                    gaps@[q].2 as int,
                    gaps@[q].3 as int,
                ),
        decreases gaps@.len() - g,
    {
        let (dst_from, dst_to, src_from, src_to) = gaps[g];
        proof {
            assert(gap_ok(anchored, dc, sc, gaps@[g as int]));
            // No line of this gap is paired yet on either side.
            assert forall|x: usize| dst_from <= x < dst_to implies !#[trigger] result@.contains_key(x) by {
                if result@.contains_key(x) && !anchor_map.contains_key(x) {
                    let q = choose|q: int|
                        0 <= q < g && (#[trigger] gaps@[q]).0 <= x < gaps@[q].1 && gaps@[q].2 <= result@[x] < gaps@[q].3;
                    assert(gaps@[q].1 <= gaps@[g as int].0);
                }
            }
            assert forall|y: usize| src_from <= y < src_to implies !#[trigger] used_source_lines@.contains(y) by {
                if used_source_lines@.contains(y) {
                    let x = choose|x: usize| #[trigger] result@.contains_key(x) && result@[x] == y;
                    if anchor_map.contains_key(x) {
                        assert(anchor_map[x] == y);
                    } else {
                        let q = choose|q: int|
                            0 <= q < g && (#[trigger] gaps@[q]).0 <= x < gaps@[q].1 && gaps@[q].2 <= result@[x] < gaps@[q].3;
                        assert(gaps@[q].3 <= gaps@[g as int].2 || gaps@[g as int].3 <= gaps@[q].2);
                    }
                }
            }
        }
        let mut available: Vec<usize> = Vec::new();
        let mut s: usize = src_from;
        while s < src_to
            invariant
                src_to <= src_count,
                src_from <= s <= src_to,
                available@ == line_range(src_from as int, s as int),
                forall|y: usize| src_from <= y < src_to ==> !#[trigger] used_source_lines@.contains(y),
            decreases src_to - s,
        {
            if !used_source_lines.contains(&s) {
                available.push(s);
            }
            proof {
                assert(available@ =~= line_range(src_from as int, s + 1));
            }
            s += 1;
        }
        let mut unmatched: Vec<usize> = Vec::new();
        let mut d: usize = dst_from;
        while d < dst_to
            invariant
                dst_to <= dst_count,
                dst_from <= d <= dst_to,
                unmatched@ == line_range(dst_from as int, d as int),
                forall|x: usize| dst_from <= x < dst_to ==> !#[trigger] result@.contains_key(x),
            decreases dst_to - d,
        {
            if !result.contains_key(&d) {
                unmatched.push(d);
            }
            proof {
                assert(unmatched@ =~= line_range(dst_from as int, d + 1));
            }
            d += 1;
        }
        let ghost gd = unmatched@;
        let ghost gs = available@;
        let pairs = lcs_matches(&unmatched, &available, destination_lines, source_lines);
        proof {
            assert forall|p: int| 0 <= p < pairs@.len() implies dst_from <= (#[trigger] pairs@[p]).0 < dst_to && src_from
                <= pairs@[p].1 < src_to by {
                let a = choose|a: int| 0 <= a < unmatched@.len() && unmatched@[a] == pairs@[p].0;
                let b = choose|b: int| 0 <= b < available@.len() && available@[b] == pairs@[p].1;
            }
        }
        let ghost exact = gd.len() * gs.len() <= 1_000_000;
        let ghost idx: Seq<(int, int)> = if exact {
            choose|idx: Seq<(int, int)>|
                #[trigger] common_from(gd, gs, dst, src, idx, 0, 0) && idx.len() == pairs@.len() && forall|k: int|
                    0 <= k < idx.len() ==> pairs@[k] == (gd[(#[trigger] idx[k]).0], gs[idx[k].1])
        } else {
            Seq::empty()
        };
        let ghost before_gap = result@;
        let mut q: usize = 0;
        while q < pairs.len()
            invariant
                dst_count == destination_lines@.len(),
                src_count == source_lines@.len(),
                pairing_ok(result@, dst_count as nat, src_count as nat),
                src == source_lines@,
                dst == destination_lines@,
                forall|d: usize| #[trigger] result@.contains_key(d) ==> pair_justified(t1, t2, bwd, src, dst, d as int, result@[d] as int),
                forall|d: usize| #[trigger] result@.contains_key(d) ==> used_source_lines@.contains(result@[d]),
                forall|s: usize| #[trigger] used_source_lines@.contains(s) ==> exists|d: usize| #[trigger] result@.contains_key(d) && result@[d] == s,
                forall|p: int| 0 <= p < pairs@.len() ==> (#[trigger] pairs@[p]).0 < dst_count && pairs@[p].1 < src_count,
                forall|p: int| 0 <= p < pairs@.len() ==> identical_lines(dst[(#[trigger] pairs@[p]).0 as int], src[pairs@[p].1 as int]),
                q <= pairs@.len(),
                forall|d: usize| #[trigger] anchor_map.contains_key(d) ==> result@.contains_key(d) && result@[d] == anchor_map[d],
                forall|d: usize|
                    #[trigger] result@.contains_key(d) && !anchor_map.contains_key(d) ==> identical_lines(dst[d as int], src[result@[d] as int])
                        && between_neighbours(anchor_map, d, result@[d]),
                forall|p: int| 0 <= p < pairs@.len() ==> dst_from <= (#[trigger] pairs@[p]).0 < dst_to && src_from
                    <= pairs@[p].1 < src_to,
                gap_ok(anchor_map, dc, sc, (dst_from, dst_to, src_from, src_to)),
                gaps@[g as int] == (dst_from, dst_to, src_from, src_to),
                g < gaps@.len(),
                // What this gap adds: only keys inside it, none of them
                // there before, with sources inside it.
                forall|d: usize| #[trigger] before_gap.contains_key(d) ==> result@.contains_key(d) && result@[d] == before_gap[d],
                forall|d: usize|
                    #[trigger] result@.contains_key(d) && !before_gap.contains_key(d) ==> dst_from <= d < dst_to && src_from
                        <= result@[d] < src_to,
                forall|x: usize| dst_from <= x < dst_to ==> !#[trigger] before_gap.contains_key(x),
                forall|y: usize| src_from <= y < src_to && #[trigger] used_source_lines@.contains(y) ==> exists|d: usize|
                    #[trigger] result@.contains_key(d) && !before_gap.contains_key(d) && result@[d] == y,
                exact ==> common_from(gd, gs, dst, src, idx, 0, 0) && idx.len() == pairs@.len() && forall|k: int|
                    0 <= k < idx.len() ==> pairs@[k] == (gd[(#[trigger] idx[k]).0], gs[idx[k].1]),
                gd == line_range(dst_from as int, dst_to as int),
                gs == line_range(src_from as int, src_to as int),
                exact ==> forall|k: int| 0 <= k < q ==> result@.contains_key((#[trigger] pairs@[k]).0) && result@[pairs@[k].0] == pairs@[k].1,
                exact ==> forall|x: usize| #[trigger] result@.contains_key(x) && !before_gap.contains_key(x) ==> exists|k: int|
                    0 <= k < q && (#[trigger] pairs@[k]).0 == x,
            decreases pairs@.len() - q,
        {
            let (destination_line, source_line) = pairs[q];
            proof {
                assert(pairs@[q as int] == (destination_line, source_line));
                lemma_gap_pair_between(anchor_map, dc, sc, (dst_from, dst_to, src_from, src_to), destination_line, source_line);
                if exact {
                    // Earlier pairs of this gap hold other lines on both sides.
                    assert forall|k: int| 0 <= k < q implies (#[trigger] pairs@[k]).0 != destination_line && pairs@[k].1 != source_line by {
                        assert(idx[k].0 < idx[q as int].0 && idx[k].1 < idx[q as int].1);
                        assert(gd[idx[k].0] != gd[idx[q as int].0]);
                        assert(gs[idx[k].1] != gs[idx[q as int].1]);
                    }
                    if result@.contains_key(destination_line) {
                        let k = choose|k: int| 0 <= k < q && (#[trigger] pairs@[k]).0 == destination_line;
                    }
                    if used_source_lines@.contains(source_line) {
                        let x = choose|x: usize| #[trigger] result@.contains_key(x) && !before_gap.contains_key(x) && result@[x] == source_line;
                        let k = choose|k: int| 0 <= k < q && (#[trigger] pairs@[k]).0 == x;
                        assert(result@[pairs@[k].0] == pairs@[k].1);
                    }
                }
            }
            let ghost prev = result@;
            if !used_source_lines.contains(&source_line) && !result.contains_key(&destination_line) {
                insert_pair(&mut result, &mut used_source_lines, destination_line, source_line, Ghost(dst_count as nat), Ghost(src_count as nat));
                proof {
                    assert forall|y: usize| src_from <= y < src_to && #[trigger] used_source_lines@.contains(y) implies exists|d: usize|
                        #[trigger] result@.contains_key(d) && !before_gap.contains_key(d) && result@[d] == y by {
                        let x = choose|x: usize| #[trigger] result@.contains_key(x) && result@[x] == y;
                        if before_gap.contains_key(x) {
                            if anchor_map.contains_key(x) {
                                assert(result@[x] == anchor_map[x]);
                            } else {
                                let q2 = choose|q2: int|
                                    0 <= q2 < g && (#[trigger] gaps@[q2]).0 <= x < gaps@[q2].1 && gaps@[q2].2 <= before_gap[x] < gaps@[q2].3;
                                assert(gaps@[q2].3 <= gaps@[g as int].2 || gaps@[g as int].3 <= gaps@[q2].2);
                            }
                        }
                    }
                    if exact {
                        assert forall|x: usize| #[trigger] result@.contains_key(x) && !before_gap.contains_key(x) implies exists|k: int|
                            0 <= k < q + 1 && (#[trigger] pairs@[k]).0 == x by {
                            if x != destination_line {
                                assert(prev.contains_key(x));
                                let k = choose|k: int| 0 <= k < q && (#[trigger] pairs@[k]).0 == x;
                            } else {
                                assert(pairs@[q as int].0 == x);
                            }
                        }
                    }
                }
            }
            q += 1;
        }
        proof {
            reveal(gap_aligned);
            // Gaps aligned before keep their pairs: this gap added only keys
            // of its own range.
            assert forall|q2: int| 0 <= q2 < g + 1 implies gap_aligned(
                result@,
                dst,
                src,
                (#[trigger] gaps@[q2]).0 as int,
                gaps@[q2].1 as int,
                gaps@[q2].2 as int,
                gaps@[q2].3 as int,
            ) by {
                let gq = gaps@[q2];
                let gd2 = line_range(gq.0 as int, gq.1 as int);
                let gs2 = line_range(gq.2 as int, gq.3 as int);
                if q2 < g {
                    assert(gaps@[q2].1 <= gaps@[g as int].0);
                    if gd2.len() * gs2.len() <= 1_000_000 {
                        assert(gap_aligned(before_gap, dst, src, gq.0 as int, gq.1 as int, gq.2 as int, gq.3 as int));
                        let idx2 = choose|idx2: Seq<(int, int)>|
                            #[trigger] common_from(gd2, gs2, dst, src, idx2, 0, 0) && idx2.len() == lcs_len(gd2, gs2, dst, src, 0, 0)
                                && (forall|k: int|
                                0 <= k < idx2.len() ==> before_gap.contains_key(gd2[(#[trigger] idx2[k]).0])
                                    && before_gap[gd2[idx2[k].0]] == gs2[idx2[k].1]) && (forall|d: usize|
                                gq.0 <= d < gq.1 && #[trigger] before_gap.contains_key(d) ==> exists|k: int|
                                    0 <= k < idx2.len() && gd2[(#[trigger] idx2[k]).0] == d);
                        assert forall|d: usize| gq.0 <= d < gq.1 && #[trigger] result@.contains_key(d) implies exists|k: int|
                            0 <= k < idx2.len() && gd2[(#[trigger] idx2[k]).0] == d by {
                            assert(before_gap.contains_key(d));
                        }
                        assert(common_from(gd2, gs2, dst, src, idx2, 0, 0));
                    }
                } else {
                    assert(gq == (dst_from, dst_to, src_from, src_to));
                    if exact {
                        assert(gd2 == gd && gs2 == gs);
                        assert forall|k: int| 0 <= k < idx.len() implies result@.contains_key(gd[(#[trigger] idx[k]).0])
                            && result@[gd[idx[k].0]] == gs[idx[k].1] by {
                            assert(result@.contains_key(pairs@[k].0) && result@[pairs@[k].0] == pairs@[k].1);
                        }
                        assert forall|d: usize| gq.0 <= d < gq.1 && #[trigger] result@.contains_key(d) implies exists|k: int|
                            0 <= k < idx.len() && gd[(#[trigger] idx[k]).0] == d by {
                            assert(!before_gap.contains_key(d));
                            let k = choose|k: int| 0 <= k < pairs@.len() && (#[trigger] pairs@[k]).0 == d;
                            assert(gd[idx[k].0] == d);
                        }
                        assert(common_from(gd, gs, dst, src, idx, 0, 0));
                    }
                }
            }
            assert forall|d: usize| #[trigger] result@.contains_key(d) && !anchor_map.contains_key(d) implies exists|q2: int|
                0 <= q2 < g + 1 && (#[trigger] gaps@[q2]).0 <= d < gaps@[q2].1 && gaps@[q2].2 <= result@[d] < gaps@[q2].3 by {
                if before_gap.contains_key(d) {
                    let q2 = choose|q2: int|
                        0 <= q2 < g && (#[trigger] gaps@[q2]).0 <= d < gaps@[q2].1 && gaps@[q2].2 <= before_gap[d] < gaps@[q2].3;
                } else {
                    assert(gaps@[g as int].0 <= d < gaps@[g as int].1);
                }
            }
        }
        g += 1;
    }
    proof {
        lemma_gaps_cover(anchored, anchors@, gaps@, dc, sc, first_pushed, first_destination, first_bound, result@, dst, src);
    }

    result
}

/// Every whole gap of the anchors is one of the listed gaps (or an empty
/// one), so what holds of each listed gap holds of every whole gap.
#[verifier::rlimit(40)]
#[verifier::spinoff_prover]
proof fn lemma_gaps_cover(
    anchored: Map<usize, usize>,
    anchors: Seq<(usize, usize)>,
    gaps: Seq<(usize, usize, usize, usize)>,
    dc: nat,
    sc: nat,
    first_pushed: bool,
    first_destination: usize,
    first_bound: usize,
    r: Map<usize, usize>,
    dl: Seq<FileLine>,
    sl: Seq<FileLine>,
)
    requires
        dc <= usize::MAX,
        forall|q: int| 0 <= q < gaps.len() ==> gap_ok(anchored, dc, sc, #[trigger] gaps[q]),
        forall|q: int|
            0 <= q < gaps.len() ==> gap_aligned(
                r,
                dl,
                sl,
                (#[trigger] gaps[q]).0 as int,
                gaps[q].1 as int,
                gaps[q].2 as int,
                gaps[q].3 as int,
            ),
        forall|q: int|
            0 <= q < anchors.len() ==> anchored.contains_key((#[trigger] anchors[q]).0) && anchored[anchors[q].0]
                == anchors[q].1,
        forall|x: usize| #[trigger] anchored.contains_key(x) ==> exists|q: int|
            0 <= q < anchors.len() && (#[trigger] anchors[q]).0 == x,
        forall|v: int|
            0 <= v < anchors.len() ==> exists|q: int| 0 <= q < gaps.len() && (#[trigger] gaps[q]).0 == (#[trigger] anchors[v]).0 + 1,
        first_pushed ==> gaps.len() > 0 && gaps[0] == (0usize, first_destination, 0usize, first_bound),
        !first_pushed ==> first_destination == 0 && first_bound == 0,
        first_destination == (if anchors.len() == 0 { dc } else { anchors[0].0 as nat }),
        first_bound == sc || exists|q: int| 0 <= q < anchors.len() && (#[trigger] anchors[q]).1 == first_bound,
    ensures
        forall|a: int, b: int, c: int, e: int| #[trigger] anchor_gap(anchored, dc, sc, a, b, c, e) ==> gap_aligned(
            r,
            dl,
            sl,
            a,
            b,
            c,
            e,
        ),
{
    assert forall|a: int, b: int, c: int, e: int| #[trigger] anchor_gap(anchored, dc, sc, a, b, c, e) implies gap_aligned(
        r,
        dl,
        sl,
        a,
        b,
        c,
        e,
    ) by {
        if a == 0 && !first_pushed {
            if b > 0 && anchors.len() > 0 {
                assert(anchored.contains_key(anchors[0].0));
            }
            assert(b == 0);
            lemma_empty_gap_aligned(r, dl, sl, a, c, e);
        } else if a == 0 {
            let gq = gaps[0];
            assert(gap_ok(anchored, dc, sc, gq));
            assert(anchor_gap(anchored, dc, sc, gq.0 as int, gq.1 as int, gq.2 as int, gq.3 as int));
            lemma_anchor_gap_unique(anchored, dc, sc, a, b, c, e, gq.1 as int, gq.2 as int, gq.3 as int);
        } else {
            let x = (a - 1) as usize;
            assert(anchored.contains_key(x));
            let v = choose|v: int| 0 <= v < anchors.len() && (#[trigger] anchors[v]).0 == x;
            let q = choose|q: int| 0 <= q < gaps.len() && (#[trigger] gaps[q]).0 == (#[trigger] anchors[v]).0 + 1;
            let gq = gaps[q];
            assert(gap_ok(anchored, dc, sc, gq));
            assert(anchor_gap(anchored, dc, sc, gq.0 as int, gq.1 as int, gq.2 as int, gq.3 as int));
            lemma_anchor_gap_unique(anchored, dc, sc, a, b, c, e, gq.1 as int, gq.2 as int, gq.3 as int);
        }
    }
}

/// A gap with no destination line is aligned, whatever its source lines.
proof fn lemma_empty_gap_aligned(r: Map<usize, usize>, dl: Seq<FileLine>, sl: Seq<FileLine>, a: int, c: int, e: int)
    ensures
        gap_aligned(r, dl, sl, a, a, c, e),
{
    reveal(gap_aligned);
    let gd = line_range(a, a);
    let gs = line_range(c, e);
    let idx = Seq::<(int, int)>::empty();
    assert(gd.len() == 0);
    assert(lcs_len(gd, gs, dl, sl, 0, 0) == 0);
    assert(common_from(gd, gs, dl, sl, idx, 0, 0));
}

/// Pairs destination line `d` with source line `s`, neither paired yet.
fn insert_pair(
    result: &mut HashMap<usize, usize>,
    used: &mut HashSet<usize>,
    d: usize,
    s: usize,
    Ghost(dst_count): Ghost<nat>,
    Ghost(src_count): Ghost<nat>,
)
    requires
        pairing_ok(old(result)@, dst_count, src_count),
        forall|x: usize| #[trigger] old(result)@.contains_key(x) ==> old(used)@.contains(old(result)@[x]),
        forall|y: usize| #[trigger] old(used)@.contains(y) ==> exists|x: usize| #[trigger] old(result)@.contains_key(x) && old(result)@[x] == y,
        !old(result)@.contains_key(d),
        !old(used)@.contains(s),
        d < dst_count,
        s < src_count,
    ensures
        final(result)@ == old(result)@.insert(d, s),
        pairing_ok(final(result)@, dst_count, src_count),
        forall|x: usize| #[trigger] final(result)@.contains_key(x) ==> final(used)@.contains(final(result)@[x]),
        forall|y: usize| #[trigger] final(used)@.contains(y) ==> exists|x: usize| #[trigger] final(result)@.contains_key(x) && final(result)@[x] == y,
{
    let ghost before = result@;
    result.insert(d, s);
    used.insert(s);
    proof {
        assert forall|d1: usize, d2: usize|
            #[trigger] result@.contains_key(d1) && #[trigger] result@.contains_key(d2) && d1 != d2 implies result@[d1] != result@[d2] by {
            if d1 != d && d2 != d {
                assert(before.contains_key(d1) && before.contains_key(d2));
            } else if d1 == d {
                assert(before.contains_key(d2));
                assert(old(used)@.contains(before[d2]));
            } else {
                assert(before.contains_key(d1));
                assert(old(used)@.contains(before[d1]));
            }
        }
        assert forall|y: usize| #[trigger] used@.contains(y) implies exists|x: usize| #[trigger] result@.contains_key(x) && result@[x] == y by {
            if y == s {
                assert(result@.contains_key(d) && result@[d] == s);
            } else {
                assert(old(used)@.contains(y));
                let x = choose|x: usize| #[trigger] before.contains_key(x) && before[x] == y;
                assert(result@.contains_key(x) && result@[x] == y);
            }
        }
    }
}

/// Entry `i` of `dst` and entry `j` of `src` name lines with identical
/// trimmed text.
pub open spec fn same_at(dst: Seq<usize>, src: Seq<usize>, dl: Seq<FileLine>, sl: Seq<FileLine>, i: int, j: int) -> bool {
    identical_lines(dl[dst[i] as int], sl[src[j] as int])
}

/// Length of a longest common subsequence of `dst[i..]` and `src[j..]` under
/// identical trimmed text.
pub open spec fn lcs_len(dst: Seq<usize>, src: Seq<usize>, dl: Seq<FileLine>, sl: Seq<FileLine>, i: int, j: int) -> nat
    decreases dst.len() - i + src.len() - j,
{
    if i < 0 || j < 0 || i >= dst.len() || j >= src.len() {
        0
    } else if same_at(dst, src, dl, sl, i, j) {
        1 + lcs_len(dst, src, dl, sl, i + 1, j + 1)
    } else {
        let below = lcs_len(dst, src, dl, sl, i + 1, j);
        let right = lcs_len(dst, src, dl, sl, i, j + 1);
        if below >= right {
            below
        } else {
            right
        }
    }
}

/// `idx` is a common subsequence of `dst[i..]` and `src[j..]`: pairs of
/// entries, increasing on both sides, each on identical lines.
pub open spec fn common_from(
    dst: Seq<usize>,
    src: Seq<usize>,
    dl: Seq<FileLine>,
    sl: Seq<FileLine>,
    idx: Seq<(int, int)>,
    i: int,
    j: int,
) -> bool {
    &&& forall|k: int|
        0 <= k < idx.len() ==> i <= (#[trigger] idx[k]).0 < dst.len() && j <= idx[k].1 < src.len() && same_at(
            dst,
            src,
            dl,
            sl,
            idx[k].0,
            idx[k].1,
        )
    &&& forall|k1: int, k2: int|
        0 <= k1 < k2 < idx.len() ==> (#[trigger] idx[k1]).0 < (#[trigger] idx[k2]).0 && idx[k1].1 < idx[k2].1
}

/// Dropping one line from either side shortens the longest common
/// subsequence by at most one, and adding one never shortens it.
proof fn lemma_lcs_steps(dst: Seq<usize>, src: Seq<usize>, dl: Seq<FileLine>, sl: Seq<FileLine>, i: int, j: int)
    requires
        0 <= i,
        0 <= j,
    ensures
        lcs_len(dst, src, dl, sl, i, j) >= lcs_len(dst, src, dl, sl, i + 1, j),
        lcs_len(dst, src, dl, sl, i, j) >= lcs_len(dst, src, dl, sl, i, j + 1),
        lcs_len(dst, src, dl, sl, i, j) <= lcs_len(dst, src, dl, sl, i + 1, j) + 1,
        lcs_len(dst, src, dl, sl, i, j) <= lcs_len(dst, src, dl, sl, i, j + 1) + 1,
    decreases dst.len() - i + src.len() - j,
{
    if i >= dst.len() || j >= src.len() {
    } else {
        lemma_lcs_steps(dst, src, dl, sl, i + 1, j);
        lemma_lcs_steps(dst, src, dl, sl, i, j + 1);
    }
}

/// No common subsequence of `dst[i..]` and `src[j..]` is longer than
/// [`lcs_len`].
proof fn lemma_lcs_optimal(
    dst: Seq<usize>,
    src: Seq<usize>,
    dl: Seq<FileLine>,
    sl: Seq<FileLine>,
    idx: Seq<(int, int)>,
    i: int,
    j: int,
)
    requires
        0 <= i,
        0 <= j,
        common_from(dst, src, dl, sl, idx, i, j),
    ensures
        idx.len() <= lcs_len(dst, src, dl, sl, i, j),
    decreases dst.len() - i + src.len() - j,
{
    if idx.len() > 0 {
        let (a, b) = idx[0];
        assert(i <= a < dst.len() && j <= b < src.len());
        lemma_lcs_steps(dst, src, dl, sl, i, j);
        if a > i {
            assert forall|k: int| 0 <= k < idx.len() implies i + 1 <= (#[trigger] idx[k]).0 < dst.len() by {
                if k > 0 {
                    assert(idx[0].0 < idx[k].0);
                }
            }
            lemma_lcs_optimal(dst, src, dl, sl, idx, i + 1, j);
        } else if b > j {
            assert forall|k: int| 0 <= k < idx.len() implies j + 1 <= (#[trigger] idx[k]).1 < src.len() by {
                if k > 0 {
                    assert(idx[0].1 < idx[k].1);
                }
            }
            lemma_lcs_optimal(dst, src, dl, sl, idx, i, j + 1);
        } else {
            let rest = idx.drop_first();
            assert forall|k: int| 0 <= k < rest.len() implies i + 1 <= (#[trigger] rest[k]).0 < dst.len() && j + 1
                <= rest[k].1 < src.len() && same_at(dst, src, dl, sl, rest[k].0, rest[k].1) by {
                assert(rest[k] == idx[k + 1]);
                assert(idx[0].0 < idx[k + 1].0 && idx[0].1 < idx[k + 1].1);
            }
            assert forall|k1: int, k2: int| 0 <= k1 < k2 < rest.len() implies (#[trigger] rest[k1]).0 < (#[trigger] rest[k2]).0
                && rest[k1].1 < rest[k2].1 by {
                assert(rest[k1] == idx[k1 + 1] && rest[k2] == idx[k2 + 1]);
            }
            lemma_lcs_optimal(dst, src, dl, sl, rest, i + 1, j + 1);
        }
    }
}

/// Common subsequence of `dst` and `src` (lists of line indices) under
/// identical trimmed text, as `(dst, src)` pairs; the longest one, in
/// increasing order, unless the table would be unreasonably large (only
/// possible when a diff has almost no anchors): then each destination line
/// takes the first still-available identical source line.
fn lcs_matches(
    dst: &Vec<usize>,
    src: &Vec<usize>,
    destination_lines: &[FileLine],
    source_lines: &[FileLine],
) -> (r: Vec<(usize, usize)>)
    requires
        forall|q: int| 0 <= q < dst@.len() ==> (#[trigger] dst@[q]) < destination_lines@.len(),
        forall|q: int| 0 <= q < src@.len() ==> (#[trigger] src@[q]) < source_lines@.len(),
    ensures
        forall|p: int|
            0 <= p < r@.len() ==> dst@.contains((#[trigger] r@[p]).0) && src@.contains(r@[p].1)
                && identical_lines(destination_lines@[r@[p].0 as int], source_lines@[r@[p].1 as int]),
        dst@.len() * src@.len() <= 1_000_000 ==> {
            &&& r@.len() == lcs_len(dst@, src@, destination_lines@, source_lines@, 0, 0)
            &&& exists|idx: Seq<(int, int)>|
                #[trigger] common_from(dst@, src@, destination_lines@, source_lines@, idx, 0, 0) && idx.len()
                    == r@.len() && forall|k: int|
                    0 <= k < idx.len() ==> r@[k] == (dst@[(#[trigger] idx[k]).0], src@[idx[k].1])
            &&& forall|other: Seq<(int, int)>|
                #[trigger] common_from(dst@, src@, destination_lines@, source_lines@, other, 0, 0) ==> other.len()
                    <= r@.len()
        },
{
    let ghost d = dst@;
    let ghost sr = src@;
    let ghost dl = destination_lines@;
    let ghost sl = source_lines@;
    proof {
        assert forall|other: Seq<(int, int)>| #[trigger] common_from(d, sr, dl, sl, other, 0, 0) implies other.len()
            <= lcs_len(d, sr, dl, sl, 0, 0) by {
            lemma_lcs_optimal(d, sr, dl, sl, other, 0, 0);
        }
    }
    let max_cells: usize = 1_000_000;
    if dst.len() == 0 || src.len() == 0 {
        proof {
            assert(common_from(d, sr, dl, sl, Seq::<(int, int)>::empty(), 0, 0));
        }
        return Vec::new();
    }
    let too_large = match dst.len().checked_mul(src.len()) {
        Some(cells) => cells > max_cells,
        None => true,
    };
    if too_large {
        let mut available: Vec<usize> = src.clone();
        proof {
            assert(available@ =~= src@);
        }
        let mut pairs: Vec<(usize, usize)> = Vec::new();
        let mut i: usize = 0;
        while i < dst.len()
            invariant
                forall|q: int| 0 <= q < dst@.len() ==> (#[trigger] dst@[q]) < destination_lines@.len(),
                forall|q: int| 0 <= q < available@.len() ==> src@.contains(#[trigger] available@[q]),
                forall|q: int| 0 <= q < src@.len() ==> (#[trigger] src@[q]) < source_lines@.len(),
                i <= dst@.len(),
                forall|p: int|
                    0 <= p < pairs@.len() ==> dst@.contains((#[trigger] pairs@[p]).0) && src@.contains(pairs@[p].1)
                        && identical_lines(destination_lines@[pairs@[p].0 as int], source_lines@[pairs@[p].1 as int]),
            decreases dst@.len() - i,
        {
            let d = dst[i];
            let mut position: usize = 0;
            let mut found = false;
            while position < available.len()
                invariant
                    forall|q: int| 0 <= q < available@.len() ==> src@.contains(#[trigger] available@[q]),
                    forall|q: int| 0 <= q < src@.len() ==> (#[trigger] src@[q]) < source_lines@.len(),
                    d < destination_lines@.len(),
                    position <= available@.len(),
                    found ==> position < available@.len() && identical_lines(destination_lines@[d as int], source_lines@[available@[position as int] as int]),
                decreases available@.len() - position + (if found { 0int } else { 1int }),
            {
                let s = available[position];
                proof {
                    let w = choose|w: int| 0 <= w < src@.len() && src@[w] == s;
                    assert(src@[w] < source_lines@.len());
                }
                if same_text(trim_text(destination_lines[d].text), trim_text(source_lines[s].text)) {
                    found = true;
                    break;
                }
                position += 1;
            }
            if found {
                let ghost before = available@;
                let s = available.remove(position);
                let ghost previous = pairs@;
                pairs.push((d, s));
                proof {
                    assert(dst@.contains(d)) by {
                        assert(dst@[i as int] == d);
                    }
                    assert forall|q: int| 0 <= q < available@.len() implies src@.contains(#[trigger] available@[q]) by {
                        if q < position {
                            assert(available@[q] == before[q]);
                        } else {
                            assert(available@[q] == before[q + 1]);
                        }
                    }
                    assert forall|p: int|
                        0 <= p < pairs@.len() implies dst@.contains((#[trigger] pairs@[p]).0) && src@.contains(pairs@[p].1)
                            && identical_lines(destination_lines@[pairs@[p].0 as int], source_lines@[pairs@[p].1 as int]) by {
                        if p < previous.len() {
                            assert(pairs@[p] == previous[p]);
                        }
                    }
                }
            }
            i += 1;
        }
        return pairs;
    }

    let rows = dst.len();
    let columns = src.len();
    proof {
        assert(rows <= 1_000_000 && columns <= 1_000_000) by (nonlinear_arith)
            requires
                rows * columns <= 1_000_000,
                rows >= 1,
                columns >= 1,
        ;
    }
    proof {
        assert(d.len() * sr.len() <= 1_000_000);
    }
    // table[i][j]: LCS length of dst[i..] and src[j..].
    let mut table: Vec<Vec<u32>> = Vec::with_capacity(rows + 1);
    let mut fill: usize = 0;
    while fill <= rows
        invariant
            fill <= rows + 1,
            rows <= 1_000_000,
            columns <= 1_000_000,
            table@.len() == fill,
            forall|q: int| 0 <= q < fill ==> (#[trigger] table@[q])@.len() == columns + 1,
            forall|q: int, c: int| 0 <= q < fill && 0 <= c <= columns ==> (#[trigger] table@[q]@[c]) == 0,
        decreases rows + 1 - fill,
    {
        let mut row: Vec<u32> = Vec::with_capacity(columns + 1);
        let mut c: usize = 0;
        while c <= columns
            invariant
                c <= columns + 1,
                columns < usize::MAX,
                row@.len() == c,
                forall|q: int| 0 <= q < c ==> row@[q] == 0,
            decreases columns + 1 - c,
        {
            row.push(0);
            c += 1;
        }
        table.push(row);
        fill += 1;
    }
    let mut i: usize = rows;
    while i > 0
        invariant
            rows == dst@.len(),
            columns == src@.len(),
            rows <= 1_000_000,
            i <= rows,
            table@.len() == rows + 1,
            forall|q: int| 0 <= q <= rows ==> (#[trigger] table@[q])@.len() == columns + 1,
            forall|q: int, c: int| 0 <= q <= rows && 0 <= c <= columns ==> (#[trigger] table@[q]@[c]) <= rows - q,
            forall|q: int| 0 <= q < dst@.len() ==> (#[trigger] dst@[q]) < destination_lines@.len(),
            forall|q: int| 0 <= q < src@.len() ==> (#[trigger] src@[q]) < source_lines@.len(),
            d == dst@,
            sr == src@,
            dl == destination_lines@,
            sl == source_lines@,
            forall|q: int| 0 <= q <= rows ==> (#[trigger] table@[q])@[columns as int] == 0,
            forall|q: int, c: int|
                i <= q <= rows && 0 <= c <= columns ==> (#[trigger] table@[q]@[c]) == lcs_len(d, sr, dl, sl, q, c),
        decreases i,
    {
        i -= 1;
        let mut row: Vec<u32> = Vec::new();
        std::mem::swap(&mut row, &mut table[i]);
        proof {
            assert(row@[columns as int] == 0);
        }
        let mut j: usize = columns;
        while j > 0
            invariant
                rows == dst@.len(),
                columns == src@.len(),
                rows <= 1_000_000,
                i < rows,
                j <= columns,
                row@.len() == columns + 1,
                table@.len() == rows + 1,
                forall|q: int| 0 <= q <= rows && q != i ==> (#[trigger] table@[q])@.len() == columns + 1,
                forall|q: int, c: int| 0 <= q <= rows && q != i && 0 <= c <= columns ==> (#[trigger] table@[q]@[c]) <= rows - q,
                forall|c: int| 0 <= c <= columns ==> (#[trigger] row@[c]) <= rows - i,
                forall|q: int| 0 <= q < dst@.len() ==> (#[trigger] dst@[q]) < destination_lines@.len(),
                forall|q: int| 0 <= q < src@.len() ==> (#[trigger] src@[q]) < source_lines@.len(),
                d == dst@,
                sr == src@,
                dl == destination_lines@,
                sl == source_lines@,
                forall|q: int| 0 <= q <= rows && q != i ==> (#[trigger] table@[q])@[columns as int] == 0,
                row@[columns as int] == 0,
                forall|q: int, c: int|
                    i < q <= rows && 0 <= c <= columns ==> (#[trigger] table@[q]@[c]) == lcs_len(d, sr, dl, sl, q, c),
                forall|c: int| j <= c <= columns ==> (#[trigger] row@[c]) == lcs_len(d, sr, dl, sl, i as int, c),
            decreases j,
        {
            j -= 1;
            let value = if same_text(trim_text(destination_lines[dst[i]].text), trim_text(source_lines[src[j]].text)) {
                table[i + 1][j + 1] + 1
            } else {
                let below = table[i + 1][j];
                let right = row[j + 1];
                if below >= right {
                    below
                } else {
                    right
                }
            };
            proof {
                assert(value == lcs_len(d, sr, dl, sl, i as int, j as int));
            }
            row.set(j, value);
        }
        std::mem::swap(&mut row, &mut table[i]);
    }

    let mut pairs: Vec<(usize, usize)> = Vec::new();
    let mut i: usize = 0;
    let mut j: usize = 0;
    let ghost mut idx: Seq<(int, int)> = Seq::empty();
    while i < rows && j < columns
        invariant
            rows == dst@.len(),
            columns == src@.len(),
            table@.len() == rows + 1,
            forall|q: int| 0 <= q <= rows ==> (#[trigger] table@[q])@.len() == columns + 1,
            forall|q: int| 0 <= q < dst@.len() ==> (#[trigger] dst@[q]) < destination_lines@.len(),
            forall|q: int| 0 <= q < src@.len() ==> (#[trigger] src@[q]) < source_lines@.len(),
            i <= rows,
            j <= columns,
            forall|p: int|
                0 <= p < pairs@.len() ==> dst@.contains((#[trigger] pairs@[p]).0) && src@.contains(pairs@[p].1)
                    && identical_lines(destination_lines@[pairs@[p].0 as int], source_lines@[pairs@[p].1 as int]),
            d == dst@,
            sr == src@,
            dl == destination_lines@,
            sl == source_lines@,
            forall|q: int, c: int|
                0 <= q <= rows && 0 <= c <= columns ==> (#[trigger] table@[q]@[c]) == lcs_len(d, sr, dl, sl, q, c),
            idx.len() == pairs@.len(),
            forall|k: int| 0 <= k < idx.len() ==> pairs@[k] == (d[(#[trigger] idx[k]).0], sr[idx[k].1]),
            common_from(d, sr, dl, sl, idx, 0, 0),
            forall|k: int| 0 <= k < idx.len() ==> (#[trigger] idx[k]).0 < i && idx[k].1 < j,
            idx.len() + lcs_len(d, sr, dl, sl, i as int, j as int) == lcs_len(d, sr, dl, sl, 0, 0),
        decreases rows - i + columns - j,
    {
        let equal = same_text(trim_text(destination_lines[dst[i]].text), trim_text(source_lines[src[j]].text));
        if equal && table[i][j] as u64 == table[i + 1][j + 1] as u64 + 1 {
            let ghost previous = pairs@;
            pairs.push((dst[i], src[j]));
            proof {
                let before = idx;
                idx = idx.push((i as int, j as int));
                assert forall|k: int| 0 <= k < idx.len() implies pairs@[k] == (d[(#[trigger] idx[k]).0], sr[idx[k].1]) by {
                    if k < before.len() {
                        assert(idx[k] == before[k]);
                        assert(pairs@[k] == previous[k]);
                    }
                }
                assert forall|k: int| 0 <= k < idx.len() implies 0 <= (#[trigger] idx[k]).0 < d.len() && 0 <= idx[k].1
                    < sr.len() && same_at(d, sr, dl, sl, idx[k].0, idx[k].1) by {
                    if k < before.len() {
                        assert(idx[k] == before[k]);
                    }
                }
                assert forall|k1: int, k2: int| 0 <= k1 < k2 < idx.len() implies (#[trigger] idx[k1]).0 < (#[trigger] idx[k2]).0
                    && idx[k1].1 < idx[k2].1 by {
                    assert(idx[k1] == before[k1]);
                    if k2 < before.len() {
                        assert(idx[k2] == before[k2]);
                    }
                }
                assert forall|k: int| 0 <= k < idx.len() implies (#[trigger] idx[k]).0 < i + 1 && idx[k].1 < j + 1 by {
                    if k < before.len() {
                        assert(idx[k] == before[k]);
                    }
                }
                assert(dst@.contains(dst@[i as int]));
                assert(src@.contains(src@[j as int]));
                assert forall|p: int|
                    0 <= p < pairs@.len() implies dst@.contains((#[trigger] pairs@[p]).0) && src@.contains(pairs@[p].1)
                        && identical_lines(destination_lines@[pairs@[p].0 as int], source_lines@[pairs@[p].1 as int]) by {
                    if p < previous.len() {
                        assert(pairs@[p] == previous[p]);
                    }
                }
            }
            i += 1;
            j += 1;
        } else if table[i + 1][j] >= table[i][j + 1] {
            i += 1;
        } else {
            j += 1;
        }
    }
    proof {
        assert(lcs_len(d, sr, dl, sl, i as int, j as int) == 0);
    }
    pairs
}

/// A run of consecutive paired destination lines whose source lines are
/// consecutive too: its destination lines and its first source line.
pub type Block = (Seq<usize>, usize);

/// The blocks of the first `k` destination lines: each paired line extends
/// the last block when its source line follows that block's, and opens a
/// new block otherwise.
pub open spec fn blocks_upto(m: Map<usize, usize>, k: int) -> Seq<Block>
    decreases k,
{
    if k <= 0 {
        seq![]
    } else {
        let prev = blocks_upto(m, k - 1);
        let d = (k - 1) as usize;
        if !m.contains_key(d) {
            prev
        } else {
            let s = m[d];
            if prev.len() > 0 && prev.last().1 + prev.last().0.len() == s {
                prev.update(prev.len() - 1, (prev.last().0.push(d), prev.last().1))
            } else {
                prev.push((seq![d], s))
            }
        }
    }
}

/// Block `x` takes part in an inversion: an earlier block starts at a later
/// source line, or a later block at an earlier one.
pub open spec fn inverted(blocks: Seq<Block>, x: int) -> bool {
    exists|p: int, q: int|
        0 <= p < q < blocks.len() && #[trigger] blocks[p].1 > #[trigger] blocks[q].1 && (x == p || x == q)
}

/// Destination line `d` belongs to a block that takes part in an
/// inversion: it was moved.
pub open spec fn moved_line(m: Map<usize, usize>, count: nat, d: usize) -> bool {
    let blocks = blocks_upto(m, count as int);
    exists|b: int| 0 <= b < blocks.len() && inverted(blocks, b) && #[trigger] blocks[b].0.contains(d)
}

/// The blocks that exec blocks stand for.
pub open spec fn blocks_model(blocks: Seq<(Vec<usize>, usize)>) -> Seq<Block> {
    blocks.map_values(|b: (Vec<usize>, usize)| (b.0@, b.1))
}

/// Lines of a block are paired lines below `k`.
proof fn lemma_blocks_lines(m: Map<usize, usize>, k: int)
    ensures
        forall|b: int, q: int|
            0 <= b < blocks_upto(m, k).len() && 0 <= q < blocks_upto(m, k)[b].0.len() ==> m.contains_key(
                #[trigger] blocks_upto(m, k)[b].0[q],
            ) && blocks_upto(m, k)[b].0[q] < k,
    decreases k,
{
    if k > 0 {
        lemma_blocks_lines(m, k - 1);
        let prev = blocks_upto(m, k - 1);
        let now = blocks_upto(m, k);
        assert forall|b: int, q: int| 0 <= b < now.len() && 0 <= q < now[b].0.len() implies m.contains_key(
            #[trigger] now[b].0[q],
        ) && now[b].0[q] < k by {
            if b < prev.len() && (b != prev.len() - 1 || now[b] == prev[b]) {
                assert(now[b] == prev[b]);
            } else if b < prev.len() {
                if q < prev[b].0.len() {
                    assert(now[b].0[q] == prev[b].0[q]);
                }
            }
        }
    }
}

/// Detects which destination lines belong to moved blocks by finding inversions
/// in the source-line sequence.
fn detect_moved_destination_lines(line_mapping: &HashMap<usize, usize>, destination_line_count: usize) -> (r: HashSet<usize>)
    ensures
        forall|d: usize| #[trigger] r@.contains(d) <==> moved_line(line_mapping@, destination_line_count as nat, d),
        forall|d: usize| #[trigger] r@.contains(d) ==> line_mapping@.contains_key(d) && d < destination_line_count,
{
    let ghost m = line_mapping@;
    // Each block: its destination lines (increasing) and its first source line.
    let mut blocks: Vec<(Vec<usize>, usize)> = Vec::new();
    let mut destination_line: usize = 0;
    while destination_line < destination_line_count
        invariant
            destination_line <= destination_line_count,
            m == line_mapping@,
            blocks_model(blocks@) == blocks_upto(m, destination_line as int),
        decreases destination_line_count - destination_line,
    {
        let ghost before = blocks@;
        let ghost prev = blocks_upto(m, destination_line as int);
        if let Some(source_line) = line_mapping.get(&destination_line) {
            let source_line = *source_line;
            let extends_previous = if blocks.len() > 0 {
                let last = blocks.len() - 1;
                let first_source = blocks[last].1;
                let length = blocks[last].0.len();
                proof {
                    assert(blocks_model(before)[last as int] == (before[last as int].0@, before[last as int].1));
                }
                first_source as u128 + length as u128 == source_line as u128
            } else {
                false
            };
            if extends_previous {
                let last = blocks.len() - 1;
                let mut block: (Vec<usize>, usize) = (Vec::new(), 0);
                std::mem::swap(&mut block, &mut blocks[last]);
                block.0.push(destination_line);
                std::mem::swap(&mut block, &mut blocks[last]);
                proof {
                    assert(prev.last() == blocks_model(before)[last as int]);
                    assert(blocks_model(blocks@) =~= prev.update(
                        prev.len() - 1,
                        (prev.last().0.push(destination_line), prev.last().1),
                    )) by {
                        assert forall|b: int| 0 <= b < blocks@.len() implies blocks_model(blocks@)[b] == prev.update(
                            prev.len() - 1,
                            (prev.last().0.push(destination_line), prev.last().1),
                        )[b] by {
                            if b != last {
                                assert(blocks@[b] == before[b]);
                                assert(blocks_model(before)[b] == prev[b]);
                            }
                        }
                    }
                }
            } else {
                let mut lines: Vec<usize> = Vec::new();
                lines.push(destination_line);
                blocks.push((lines, source_line));
                proof {
                    assert(blocks_model(blocks@) =~= prev.push((seq![destination_line], source_line))) by {
                        assert forall|b: int| 0 <= b < blocks@.len() implies blocks_model(blocks@)[b] == prev.push(
                            (seq![destination_line], source_line),
                        )[b] by {
                            if b < before.len() {
                                assert(blocks@[b] == before[b]);
                                assert(blocks_model(before)[b] == prev[b]);
                            } else {
                                assert(blocks@[b].0@ =~= seq![destination_line]);
                            }
                        }
                    }
                }
            }
        }
        destination_line += 1;
    }
    let ghost model = blocks_upto(m, destination_line_count as int);
    proof {
        lemma_blocks_lines(m, destination_line_count as int);
    }

    let count = blocks.len();
    let mut moved_block: Vec<bool> = Vec::with_capacity(count);
    let mut fill: usize = 0;
    while fill < count
        invariant
            fill <= count,
            moved_block@.len() == fill,
            forall|x: int| 0 <= x < fill ==> !moved_block@[x],
        decreases count - fill,
    {
        moved_block.push(false);
        fill += 1;
    }
    let mut i: usize = 0;
    while i < count
        invariant
            count == blocks@.len(),
            model == blocks_model(blocks@),
            moved_block@.len() == count,
            i <= count,
            forall|x: int|
                0 <= x < count ==> moved_block@[x] == exists|p: int, q: int|
                    0 <= p < i && p < q < count && #[trigger] model[p].1 > #[trigger] model[q].1 && (x == p || x == q),
        decreases count - i,
    {
        let mut j: usize = i + 1;
        while j < count
            invariant
                count == blocks@.len(),
                model == blocks_model(blocks@),
                moved_block@.len() == count,
                i < count,
                i + 1 <= j <= count,
                forall|x: int|
                    0 <= x < count ==> moved_block@[x] == exists|p: int, q: int|
                        0 <= p < count && p < q < count && (p < i || (p == i && q < j)) && #[trigger] model[p].1
                            > #[trigger] model[q].1 && (x == p || x == q),
            decreases count - j,
        {
            let ghost before = moved_block@;
            proof {
                assert(model[i as int].1 == blocks@[i as int].1);
                assert(model[j as int].1 == blocks@[j as int].1);
            }
            if blocks[i].1 > blocks[j].1 {
                moved_block.set(i, true);
                moved_block.set(j, true);
            }
            proof {
                assert forall|x: int| 0 <= x < count implies moved_block@[x] == exists|p: int, q: int|
                    0 <= p < count && p < q < count && (p < i || (p == i && q < j + 1)) && #[trigger] model[p].1
                        > #[trigger] model[q].1 && (x == p || x == q) by {
                    if exists|p: int, q: int|
                        0 <= p < count && p < q < count && (p < i || (p == i && q < j + 1)) && #[trigger] model[p].1
                            > #[trigger] model[q].1 && (x == p || x == q) {
                        let (p, q) = choose|p: int, q: int|
                            0 <= p < count && p < q < count && (p < i || (p == i && q < j + 1)) && #[trigger] model[p].1
                                > #[trigger] model[q].1 && (x == p || x == q);
                        if !(p == i && q == j) {
                            assert(before[x]);
                        }
                    }
                    if before[x] {
                        let (p, q) = choose|p: int, q: int|
                            0 <= p < count && p < q < count && (p < i || (p == i && q < j)) && #[trigger] model[p].1
                                > #[trigger] model[q].1 && (x == p || x == q);
                        assert(0 <= p < count && p < q < count && (p < i || (p == i && q < j + 1)) && model[p].1
                            > model[q].1 && (x == p || x == q));
                    }
                    if x == i || x == j {
                        if model[i as int].1 > model[j as int].1 {
                            assert(0 <= i < count && i < j < count && (i < i || (i == i && j < j + 1))
                                && model[i as int].1 > model[j as int].1 && (x == i || x == j));
                        }
                    }
                }
            }
            j += 1;
        }
        proof {
            assert forall|x: int| 0 <= x < count implies moved_block@[x] == exists|p: int, q: int|
                0 <= p < i + 1 && p < q < count && #[trigger] model[p].1 > #[trigger] model[q].1 && (x == p || x == q) by {
                if moved_block@[x] {
                    let (p, q) = choose|p: int, q: int|
                        0 <= p < count && p < q < count && (p < i || (p == i && q < count)) && #[trigger] model[p].1
                            > #[trigger] model[q].1 && (x == p || x == q);
                    assert(0 <= p < i + 1 && p < q < count && model[p].1 > model[q].1 && (x == p || x == q));
                }
                if exists|p: int, q: int|
                    0 <= p < i + 1 && p < q < count && #[trigger] model[p].1 > #[trigger] model[q].1 && (x == p || x == q) {
                    let (p, q) = choose|p: int, q: int|
                        0 <= p < i + 1 && p < q < count && #[trigger] model[p].1 > #[trigger] model[q].1 && (x == p || x == q);
                    assert(0 <= p < count && p < q < count && (p < i || (p == i && q < count)) && model[p].1
                        > model[q].1 && (x == p || x == q));
                }
            }
        }
        i += 1;
    }
    proof {
        assert forall|x: int| 0 <= x < count implies moved_block@[x] == inverted(model, x) by {
            if moved_block@[x] {
                let (p, q) = choose|p: int, q: int|
                    0 <= p < count && p < q < count && #[trigger] model[p].1 > #[trigger] model[q].1 && (x == p || x == q);
                assert(0 <= p < q < model.len() && model[p].1 > model[q].1 && (x == p || x == q));
            }
            if inverted(model, x) {
                let (p, q) = choose|p: int, q: int|
                    0 <= p < q < model.len() && #[trigger] model[p].1 > #[trigger] model[q].1 && (x == p || x == q);
                assert(0 <= p < count && p < q < count && model[p].1 > model[q].1 && (x == p || x == q));
            }
        }
    }

    let mut moved_lines: HashSet<usize> = HashSet::new();
    let mut b: usize = 0;
    while b < count
        invariant
            count == blocks@.len(),
            model == blocks_model(blocks@),
            m == line_mapping@,
            model == blocks_upto(m, destination_line_count as int),
            moved_block@.len() == count,
            forall|x: int| 0 <= x < count ==> moved_block@[x] == inverted(model, x),
            b <= count,
            forall|d: usize|
                #[trigger] moved_lines@.contains(d) <==> exists|bb: int|
                    0 <= bb < b && inverted(model, bb) && #[trigger] model[bb].0.contains(d),
        decreases count - b,
    {
        let ghost before = moved_lines@;
        if moved_block[b] {
            let lines = &blocks[b].0;
            let mut q: usize = 0;
            proof {
                assert(model[b as int].0 == lines@);
            }
            while q < lines.len()
                invariant
                    b < count,
                    count == blocks@.len(),
                    model == blocks_model(blocks@),
                    *lines == blocks@[b as int].0,
                    model[b as int].0 == lines@,
                    q <= lines@.len(),
                    forall|d: usize|
                        #[trigger] moved_lines@.contains(d) <==> (before.contains(d) || exists|w: int|
                            0 <= w < q && lines@[w] == d),
                decreases lines@.len() - q,
            {
                let line = lines[q];
                moved_lines.insert(line);
                proof {
                    assert forall|d: usize| #[trigger] moved_lines@.contains(d) <==> (before.contains(d) || exists|w: int|
                        0 <= w < q + 1 && lines@[w] == d) by {
                        if d == line {
                            assert(lines@[q as int] == d);
                        }
                        if exists|w: int| 0 <= w < q + 1 && lines@[w] == d {
                            let w = choose|w: int| 0 <= w < q + 1 && lines@[w] == d;
                            if w < q {
                                assert(exists|w2: int| 0 <= w2 < q && lines@[w2] == d);
                            }
                        }
                    }
                }
                q += 1;
            }
            proof {
                assert forall|d: usize| #[trigger] moved_lines@.contains(d) <==> exists|bb: int|
                    0 <= bb < b + 1 && inverted(model, bb) && #[trigger] model[bb].0.contains(d) by {
                    if moved_lines@.contains(d) && !before.contains(d) {
                        let w = choose|w: int| 0 <= w < lines@.len() && lines@[w] == d;
                        assert(model[b as int].0.contains(d));
                    }
                    if exists|bb: int| 0 <= bb < b + 1 && inverted(model, bb) && #[trigger] model[bb].0.contains(d) {
                        let bb = choose|bb: int| 0 <= bb < b + 1 && inverted(model, bb) && #[trigger] model[bb].0.contains(d);
                        if bb == b {
                            let w = choose|w: int| 0 <= w < lines@.len() && lines@[w] == d;
                        } else {
                            assert(before.contains(d));
                        }
                    }
                }
            }
        } else {
            proof {
                assert forall|d: usize| #[trigger] moved_lines@.contains(d) <==> exists|bb: int|
                    0 <= bb < b + 1 && inverted(model, bb) && #[trigger] model[bb].0.contains(d) by {
                    if exists|bb: int| 0 <= bb < b + 1 && inverted(model, bb) && #[trigger] model[bb].0.contains(d) {
                        let bb = choose|bb: int| 0 <= bb < b + 1 && inverted(model, bb) && #[trigger] model[bb].0.contains(d);
                        assert(bb != b);
                    }
                }
            }
        }
        b += 1;
    }
    proof {
        assert forall|d: usize| #[trigger] moved_lines@.contains(d) implies line_mapping@.contains_key(d) && d
            < destination_line_count by {
            let bb = choose|bb: int| 0 <= bb < count && inverted(model, bb) && #[trigger] model[bb].0.contains(d);
            let w = choose|w: int| 0 <= w < model[bb].0.len() && model[bb].0[w] == d;
            assert(m.contains_key(model[bb].0[w]) && model[bb].0[w] < destination_line_count);
        }
    }
    moved_lines
}

} // verus!

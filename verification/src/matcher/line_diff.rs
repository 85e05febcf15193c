//! Two-phase line matching for language-agnostic diffing.
//!
//! **Phase 1: Exact matching.** Lines with identical content are grouped and
//! paired by positional proximity, enabling move detection even when lines
//! change order.
//!
//! **Phase 2: Similarity matching.** Remaining unmatched lines are compared
//! pairwise using normalised edit distance. Pairs that meet a similarity
//! threshold are linked, producing `update-node` actions instead of delete+insert.

use vstd::prelude::*;

use super::{frac_ge, frac_gt};
use crate::mapping::Mapping;
use crate::ratio::Ratio;
use crate::string_distance::{lemma_similarity_range, normalised_similarity, similarity_spec};
use crate::tree::{Node, NodeId, Tree};

verus! {

/// Minimum normalised similarity for two lines to be considered a fuzzy
/// match, as a fraction: one half. Lines below it stay unmatched.
fn min_similarity() -> (r: Ratio)
    ensures
        r.numerator == 1 && r.denominator == 2,
{
    Ratio::new(1, 2)
}

/// A link that line matching may make: the two roots, or a child of each
/// root with identical labels or with similarity of at least one half.
pub open spec fn line_link_ok(t1: Seq<Node>, r1: int, t2: Seq<Node>, r2: int, s: usize, d: usize) -> bool {
    ||| (s == r1 && d == r2)
    ||| {
        &&& t1[r1].children@.contains(s)
        &&& t2[r2].children@.contains(d)
        &&& (t1[s as int].label@ == t2[d as int].label@ || frac_ge(
            similarity_spec(t1[s as int].label@, t2[d as int].label@),
            (1, 2),
        ))
    }
}

/// Every link of `m` is one line matching may make.
pub open spec fn line_links_ok(t1: Seq<Node>, r1: int, t2: Seq<Node>, r2: int, m: Mapping) -> bool {
    forall|s: usize| #[trigger]
        m.fwd().contains_key(s) ==> line_link_ok(t1, r1, t2, r2, s, m.fwd()[s])
}

/// The labels of the children of `r` in `t`, in order.
pub open spec fn child_labels(t: Seq<Node>, r: int) -> Seq<Seq<char>> {
    t[r].children@.map_values(|c: usize| t[c as int].label@)
}

/// How far apart two line positions are.
pub open spec fn gap(i: int, j: int) -> int {
    if i >= j {
        i - j
    } else {
        j - i
    }
}

/// Destination line `j` is one phase one may give source line `i`: unused so
/// far and with the same content.
pub open spec fn same_unused(l1: Seq<Seq<char>>, l2: Seq<Seq<char>>, taken: Seq<bool>, i: int, j: int) -> bool {
    0 <= j < l2.len() && !taken[j] && l2[j] == l1[i]
}

/// `j` is the line phase one gives source line `i`, with the destination
/// lines in `taken` already used: the nearest unused line with the same
/// content, the earlier of two equally near ones.
pub open spec fn nearest_same(l1: Seq<Seq<char>>, l2: Seq<Seq<char>>, taken: Seq<bool>, i: int, j: int) -> bool {
    &&& same_unused(l1, l2, taken, i, j)
    &&& forall|k: int| #[trigger]
        same_unused(l1, l2, taken, i, k) ==> gap(i, j) < gap(i, k) || (gap(i, j) == gap(i, k) && j <= k)
}

/// The destination line phase one gives source line `i`, if any.
pub open spec fn nearest_same_line(l1: Seq<Seq<char>>, l2: Seq<Seq<char>>, taken: Seq<bool>, i: int) -> Option<int> {
    if exists|j: int| nearest_same(l1, l2, taken, i, j) {
        Some(choose|j: int| nearest_same(l1, l2, taken, i, j))
    } else {
        None
    }
}

/// Phase one after the first `n` source lines: which destination lines it
/// has used, and the line it gave each of those source lines.
pub open spec fn exact_phase(l1: Seq<Seq<char>>, l2: Seq<Seq<char>>, n: nat) -> (Seq<bool>, Seq<Option<int>>)
    decreases n,
{
    if n == 0 {
        (Seq::new(l2.len(), |j: int| false), Seq::empty())
    } else {
        let (taken, picks) = exact_phase(l1, l2, (n - 1) as nat);
        match nearest_same_line(l1, l2, taken, n - 1) {
            Some(j) => (taken.update(j, true), picks.push(Some(j))),
            None => (taken, picks.push(None)),
        }
    }
}

/// The positions below `n` that `taken` leaves unused, in order.
pub open spec fn unused_lines(taken: Seq<bool>, n: nat) -> Seq<int>
    decreases n,
{
    if n == 0 {
        Seq::empty()
    } else if taken[n - 1] {
        unused_lines(taken, (n - 1) as nat)
    } else {
        unused_lines(taken, (n - 1) as nat).push(n - 1)
    }
}

/// How similar source line `i` is to destination line `j`.
pub open spec fn line_similarity(l1: Seq<Seq<char>>, l2: Seq<Seq<char>>, i: int, j: int) -> (nat, nat) {
    similarity_spec(l1[i], l2[j])
}

/// `p` is the position in `pool` that phase two gives source line `i`: the
/// most similar line, at least one half, the earliest of equally similar
/// ones.
pub open spec fn most_similar(l1: Seq<Seq<char>>, l2: Seq<Seq<char>>, pool: Seq<int>, i: int, p: int) -> bool {
    &&& 0 <= p < pool.len()
    &&& frac_ge(line_similarity(l1, l2, i, pool[p]), (1, 2))
    &&& forall|q: int|
        0 <= q < p ==> frac_gt(line_similarity(l1, l2, i, pool[p]), line_similarity(l1, l2, i, #[trigger] pool[q]))
    &&& forall|q: int|
        p < q < pool.len() ==> frac_ge(line_similarity(l1, l2, i, pool[p]), line_similarity(l1, l2, i, #[trigger] pool[q]))
}

/// The position in `pool` phase two gives source line `i`, if any.
pub open spec fn most_similar_line(l1: Seq<Seq<char>>, l2: Seq<Seq<char>>, pool: Seq<int>, i: int) -> Option<int> {
    if exists|p: int| most_similar(l1, l2, pool, i, p) {
        Some(choose|p: int| most_similar(l1, l2, pool, i, p))
    } else {
        None
    }
}

/// Phase two after the first `n` source lines, starting from the lines
/// `first` gave in phase one and the unused destination lines `pool0`: the
/// destination lines still unused, and the line each source line has.
pub open spec fn similar_phase(
    l1: Seq<Seq<char>>,
    l2: Seq<Seq<char>>,
    first: Seq<Option<int>>,
    pool0: Seq<int>,
    n: nat,
) -> (Seq<int>, Seq<Option<int>>)
    decreases n,
{
    if n == 0 {
        (pool0, Seq::empty())
    } else {
        let (pool, picks) = similar_phase(l1, l2, first, pool0, (n - 1) as nat);
        if first[n - 1] is Some {
            (pool, picks.push(first[n - 1]))
        } else {
            match most_similar_line(l1, l2, pool, n - 1) {
                Some(p) => (pool.remove(p), picks.push(Some(pool[p]))),
                None => (pool, picks.push(None)),
            }
        }
    }
}

/// The destination line that line matching gives each source line, if any.
pub open spec fn line_pairs(l1: Seq<Seq<char>>, l2: Seq<Seq<char>>) -> Seq<Option<int>> {
    let (taken, first) = exact_phase(l1, l2, l1.len());
    similar_phase(l1, l2, first, unused_lines(taken, l2.len()), l1.len()).1
}

/// `m` links the two roots, and each child of `r1` to the child of `r2`
/// that [`line_pairs`] gives it, and nothing else.
pub open spec fn lines_matched(t1: Seq<Node>, r1: int, t2: Seq<Node>, r2: int, m: Mapping) -> bool {
    let c1 = t1[r1].children@;
    let c2 = t2[r2].children@;
    let pairs = line_pairs(child_labels(t1, r1), child_labels(t2, r2));
    &&& m.fwd().contains_key(r1 as usize)
    &&& m.fwd()[r1 as usize] == r2
    &&& forall|i: int| 0 <= i < c1.len() ==> (m.fwd().contains_key(#[trigger] c1[i]) <==> pairs[i] is Some)
    &&& forall|i: int|
        0 <= i < c1.len() && pairs[i] is Some ==> m.fwd()[#[trigger] c1[i]] == c2[pairs[i]->0]
    &&& forall|s: usize| #[trigger] m.fwd().contains_key(s) ==> s == r1 || c1.contains(s)
}

/// There is at most one line phase one may give a source line.
proof fn lemma_nearest_unique(l1: Seq<Seq<char>>, l2: Seq<Seq<char>>, taken: Seq<bool>, i: int, j1: int, j2: int)
    requires
        nearest_same(l1, l2, taken, i, j1),
        nearest_same(l1, l2, taken, i, j2),
    ensures
        j1 == j2,
{
    assert(same_unused(l1, l2, taken, i, j2));
    assert(same_unused(l1, l2, taken, i, j1));
}

/// There is at most one position phase two may give a source line.
proof fn lemma_most_similar_unique(l1: Seq<Seq<char>>, l2: Seq<Seq<char>>, pool: Seq<int>, i: int, p1: int, p2: int)
    requires
        most_similar(l1, l2, pool, i, p1),
        most_similar(l1, l2, pool, i, p2),
    ensures
        p1 == p2,
{
    if p1 < p2 {
        assert(frac_gt(line_similarity(l1, l2, i, pool[p2]), line_similarity(l1, l2, i, pool[p1])));
        assert(frac_ge(line_similarity(l1, l2, i, pool[p1]), line_similarity(l1, l2, i, pool[p2])));
    } else if p2 < p1 {
        assert(frac_gt(line_similarity(l1, l2, i, pool[p1]), line_similarity(l1, l2, i, pool[p2])));
        assert(frac_ge(line_similarity(l1, l2, i, pool[p2]), line_similarity(l1, l2, i, pool[p1])));
    }
}

/// What phase one has done after `n` source lines: one flag per
/// destination line, one entry per source line, and every line it gave is
/// marked used.
proof fn lemma_exact_phase(l1: Seq<Seq<char>>, l2: Seq<Seq<char>>, n: nat)
    ensures
        exact_phase(l1, l2, n).0.len() == l2.len(),
        exact_phase(l1, l2, n).1.len() == n,
        forall|k: int|
            0 <= k < n && #[trigger] exact_phase(l1, l2, n).1[k] is Some ==> {
                let j = exact_phase(l1, l2, n).1[k]->0;
                0 <= j < l2.len() && exact_phase(l1, l2, n).0[j]
            },
    decreases n,
{
    if n > 0 {
        lemma_exact_phase(l1, l2, (n - 1) as nat);
        let (taken, picks) = exact_phase(l1, l2, (n - 1) as nat);
        match nearest_same_line(l1, l2, taken, n - 1) {
            Some(j) => {
                let (t2, p2) = exact_phase(l1, l2, n);
                assert forall|k: int| 0 <= k < n && #[trigger] p2[k] is Some implies {
                    let j = p2[k]->0;
                    0 <= j < l2.len() && t2[j]
                } by {
                    if k < n - 1 {
                        assert(p2[k] == picks[k]);
                    }
                }
            },
            None => {
                let (t2, p2) = exact_phase(l1, l2, n);
                assert forall|k: int| 0 <= k < n && #[trigger] p2[k] is Some implies {
                    let j = p2[k]->0;
                    0 <= j < l2.len() && t2[j]
                } by {
                    if k < n - 1 {
                        assert(p2[k] == picks[k]);
                    }
                }
            },
        }
    }
}

/// The unused positions below `n`: each unused, in increasing order, and
/// every unused position below `n` among them.
proof fn lemma_unused_lines(taken: Seq<bool>, n: nat)
    requires
        n <= taken.len(),
    ensures
        forall|q: int|
            0 <= q < unused_lines(taken, n).len() ==> 0 <= #[trigger] unused_lines(taken, n)[q] < n
                && !taken[unused_lines(taken, n)[q]],
        forall|q1: int, q2: int|
            0 <= q1 < q2 < unused_lines(taken, n).len() ==> #[trigger] unused_lines(taken, n)[q1]
                < #[trigger] unused_lines(taken, n)[q2],
        forall|j: int| 0 <= j < n && !taken[j] ==> #[trigger] unused_lines(taken, n).contains(j),
    decreases n,
{
    if n > 0 {
        lemma_unused_lines(taken, (n - 1) as nat);
        let prev = unused_lines(taken, (n - 1) as nat);
        assert forall|j: int| 0 <= j < n && !taken[j] implies #[trigger] unused_lines(taken, n).contains(j) by {
            if j < n - 1 {
                assert(prev.contains(j));
                let q = choose|q: int| 0 <= q < prev.len() && prev[q] == j;
                assert(unused_lines(taken, n)[q] == j);
            } else {
                assert(unused_lines(taken, n)[prev.len() as int] == j);
            }
        }
    }
}

/// What phase two keeps true: the pool holds distinct destination lines,
/// drawn from `pool0`; each source line keeps what phase one gave it; and no
/// line given to a source line is still in the pool.
proof fn lemma_similar_phase(
    l1: Seq<Seq<char>>,
    l2: Seq<Seq<char>>,
    first: Seq<Option<int>>,
    pool0: Seq<int>,
    n: nat,
)
    requires
        n <= first.len(),
        pool0.no_duplicates(),
        forall|q: int| 0 <= q < pool0.len() ==> 0 <= #[trigger] pool0[q] < l2.len(),
        forall|k: int|
            0 <= k < first.len() && #[trigger] first[k] is Some ==> 0 <= first[k]->0 < l2.len()
                && !pool0.contains(first[k]->0),
    ensures
        ({
            let (pool, picks) = similar_phase(l1, l2, first, pool0, n);
            &&& pool.no_duplicates()
            &&& forall|q: int| 0 <= q < pool.len() ==> 0 <= #[trigger] pool[q] < l2.len() && pool0.contains(pool[q])
            &&& picks.len() == n
            &&& forall|k: int| 0 <= k < n && #[trigger] first[k] is Some ==> picks[k] == first[k]
            &&& forall|k: int|
                0 <= k < n && #[trigger] picks[k] is Some ==> 0 <= picks[k]->0 < l2.len() && !pool.contains(
                    picks[k]->0,
                )
        }),
    decreases n,
{
    if n > 0 {
        lemma_similar_phase(l1, l2, first, pool0, (n - 1) as nat);
        let (pool, picks) = similar_phase(l1, l2, first, pool0, (n - 1) as nat);
        if first[n - 1] is Some {
        } else {
            match most_similar_line(l1, l2, pool, n - 1) {
                Some(p) => {
                    let rest = pool.remove(p);
                    let picked = pool[p];
                    assert(rest =~= pool.subrange(0, p) + pool.subrange(p + 1, pool.len() as int));
                    assert forall|q: int| 0 <= q < rest.len() implies 0 <= #[trigger] rest[q] < l2.len() && pool0.contains(rest[q]) by {
                        if q < p {
                            assert(rest[q] == pool[q]);
                        } else {
                            assert(rest[q] == pool[q + 1]);
                        }
                    }
                    assert(rest.no_duplicates()) by {
                        assert forall|a: int, b: int| 0 <= a < rest.len() && 0 <= b < rest.len() && a != b implies rest[a] != rest[b] by {
                            let a2 = if a < p { a } else { a + 1 };
                            let b2 = if b < p { b } else { b + 1 };
                            assert(rest[a] == pool[a2]);
                            assert(rest[b] == pool[b2]);
                        }
                    }
                    assert(!rest.contains(picked)) by {
                        if rest.contains(picked) {
                            let q = choose|q: int| 0 <= q < rest.len() && rest[q] == picked;
                            let q2 = if q < p { q } else { q + 1 };
                            assert(rest[q] == pool[q2]);
                        }
                    }
                    let (pool2, picks2) = similar_phase(l1, l2, first, pool0, n);
                    assert forall|k: int| 0 <= k < n && #[trigger] picks2[k] is Some implies 0 <= picks2[k]->0 < l2.len()
                        && !pool2.contains(picks2[k]->0) by {
                        if k < n - 1 {
                            assert(picks2[k] == picks[k]);
                            if pool2.contains(picks[k]->0) {
                                let q = choose|q: int| 0 <= q < rest.len() && rest[q] == picks[k]->0;
                                let q2 = if q < p { q } else { q + 1 };
                                assert(rest[q] == pool[q2]);
                            }
                        }
                    }
                    assert forall|k: int| 0 <= k < n && #[trigger] first[k] is Some implies picks2[k] == first[k] by {
                        if k < n - 1 {
                            assert(picks2[k] == picks[k]);
                        }
                    }
                },
                None => {
                    let (pool2, picks2) = similar_phase(l1, l2, first, pool0, n);
                    assert forall|k: int| 0 <= k < n && #[trigger] picks2[k] is Some implies 0 <= picks2[k]->0 < l2.len()
                        && !pool2.contains(picks2[k]->0) by {
                        if k < n - 1 {
                            assert(picks2[k] == picks[k]);
                        }
                    }
                    assert forall|k: int| 0 <= k < n && #[trigger] first[k] is Some implies picks2[k] == first[k] by {
                        if k < n - 1 {
                            assert(picks2[k] == picks[k]);
                        }
                    }
                },
            }
        }
        let (pool2, picks2) = similar_phase(l1, l2, first, pool0, n);
        if first[n - 1] is Some {
            assert forall|k: int| 0 <= k < n && #[trigger] picks2[k] is Some implies 0 <= picks2[k]->0 < l2.len()
                && !pool2.contains(picks2[k]->0) by {
                if k < n - 1 {
                    assert(picks2[k] == picks[k]);
                } else {
                    if pool2.contains(first[k]->0) {
                        let q = choose|q: int| 0 <= q < pool.len() && pool[q] == first[k]->0;
                        assert(pool0.contains(pool[q]));
                    }
                }
            }
            assert forall|k: int| 0 <= k < n && #[trigger] first[k] is Some implies picks2[k] == first[k] by {
                if k < n - 1 {
                    assert(picks2[k] == picks[k]);
                }
            }
        }
    }
}

/// Phase one on two equal line lists has, after `n` lines, used exactly the
/// first `n` destination lines, giving each source line its own position.
proof fn lemma_exact_phase_identical(l: Seq<Seq<char>>, n: nat)
    requires
        n <= l.len(),
    ensures
        exact_phase(l, l, n).0 == Seq::new(l.len(), |j: int| j < n),
        exact_phase(l, l, n).1 == Seq::new(n, |k: int| Some(k)),
    decreases n,
{
    if n > 0 {
        lemma_exact_phase_identical(l, (n - 1) as nat);
        let taken = exact_phase(l, l, (n - 1) as nat).0;
        let i = n - 1;
        assert(nearest_same(l, l, taken, i, i)) by {
            assert forall|k: int| #[trigger] same_unused(l, l, taken, i, k) implies gap(i, i) < gap(i, k) || (gap(
                i,
                i,
            ) == gap(i, k) && i <= k) by {
                assert(k >= i);
            }
        }
        let w = choose|j: int| nearest_same(l, l, taken, i, j);
        lemma_nearest_unique(l, l, taken, i, w, i);
        assert(exact_phase(l, l, n).0 =~= Seq::new(l.len(), |j: int| j < n));
        assert(exact_phase(l, l, n).1 =~= Seq::new(n, |k: int| Some(k)));
    }
}

/// Phase two leaves alone what phase one already settled for every line.
proof fn lemma_similar_phase_settled(
    l1: Seq<Seq<char>>,
    l2: Seq<Seq<char>>,
    first: Seq<Option<int>>,
    pool0: Seq<int>,
    n: nat,
)
    requires
        n <= first.len(),
        forall|k: int| 0 <= k < first.len() ==> #[trigger] first[k] is Some,
    ensures
        similar_phase(l1, l2, first, pool0, n).1 == first.subrange(0, n as int),
    decreases n,
{
    if n > 0 {
        lemma_similar_phase_settled(l1, l2, first, pool0, (n - 1) as nat);
        assert(first[n - 1] is Some);
        assert(first.subrange(0, n - 1).push(first[n - 1]) =~= first.subrange(0, n as int));
    }
}

/// Two identical line lists pair every line with the line at the same
/// position.
pub proof fn lemma_identical_lines_pair_up(l: Seq<Seq<char>>)
    ensures
        line_pairs(l, l) == Seq::new(l.len(), |k: int| Some(k)),
{
    lemma_exact_phase_identical(l, l.len());
    let (taken, first) = exact_phase(l, l, l.len());
    lemma_similar_phase_settled(l, l, first, unused_lines(taken, l.len()), l.len());
    assert(first.subrange(0, l.len() as int) =~= first);
}

/// Matching two files with the same lines links every line to the line at
/// the same position in the other file.
pub proof fn lemma_identical_files_map_all_lines(t1: Seq<Node>, r1: int, t2: Seq<Node>, r2: int, m: Mapping)
    requires
        lines_matched(t1, r1, t2, r2, m),
        child_labels(t1, r1) == child_labels(t2, r2),
    ensures
        forall|i: int|
            0 <= i < t1[r1].children@.len() ==> m.fwd().contains_key(#[trigger] t1[r1].children@[i])
                && m.fwd()[t1[r1].children@[i]] == t2[r2].children@[i],
{
    lemma_identical_lines_pair_up(child_labels(t1, r1));
    let pairs = line_pairs(child_labels(t1, r1), child_labels(t2, r2));
    assert forall|i: int| 0 <= i < t1[r1].children@.len() implies m.fwd().contains_key(#[trigger] t1[r1].children@[i])
        && m.fwd()[t1[r1].children@[i]] == t2[r2].children@[i] by {
        assert(child_labels(t1, r1).len() == t1[r1].children@.len());
        assert(pairs[i] == Some(i));
    }
}

/// Builds a mapping between two flat line trees.
///
/// Both trees must have the structure produced by [`crate::line_tree::build_line_tree`]:
/// a single root with zero or more leaf children.
pub fn match_lines(source: &Tree, destination: &Tree) -> (r: Mapping)
    requires
        source.wf(),
        destination.wf(),
        source.labels_fit(),
        destination.labels_fit(),
    ensures
        r.wf(),
        r.fits(source.arena().len(), destination.arena().len()),
        r.fwd().contains_key(source.root_id() as usize),
        r.fwd()[source.root_id() as usize] == destination.root_id(),
        line_links_ok(source.arena(), source.root_id(), destination.arena(), destination.root_id(), r),
        lines_matched(source.arena(), source.root_id(), destination.arena(), destination.root_id(), r),
{
    let ghost t1 = source.arena();
    let ghost t2 = destination.arena();
    let source_root = source.root();
    let destination_root = destination.root();
    let source_children = &source.node(source_root).children;
    let destination_children = &destination.node(destination_root).children;

    let mut mapping = Mapping::new();
    mapping.link(source_root, destination_root);
    proof {
        assert(crate::tree::arena_wf(t1, source.root_id()));
        assert(crate::tree::arena_wf(t2, destination.root_id()));
        assert(mapping.fwd() == Map::<usize, usize>::empty().insert(source_root, destination_root));
    }

    let mut matched_sources: Vec<bool> = Vec::with_capacity(source_children.len());
    let mut fill: usize = 0;
    while fill < source_children.len()
        invariant
            fill <= source_children@.len(),
            matched_sources@ == Seq::new(fill as nat, |k: int| false),
        decreases source_children@.len() - fill,
    {
        matched_sources.push(false);
        fill += 1;
        assert(matched_sources@ =~= Seq::new(fill as nat, |k: int| false));
    }
    let mut matched_destinations: Vec<bool> = Vec::with_capacity(destination_children.len());
    let mut fill: usize = 0;
    while fill < destination_children.len()
        invariant
            fill <= destination_children@.len(),
            matched_destinations@ == Seq::new(fill as nat, |k: int| false),
        decreases destination_children@.len() - fill,
    {
        matched_destinations.push(false);
        fill += 1;
        assert(matched_destinations@ =~= Seq::new(fill as nat, |k: int| false));
    }

    match_exact_content(
        source,
        destination,
        &mut matched_sources,
        &mut matched_destinations,
        &mut mapping,
    );

    match_similar_content(
        source,
        destination,
        &matched_sources,
        &matched_destinations,
        &mut mapping,
    );
    proof {
        let c1 = t1[source.root_id()].children@;
        assert forall|s: usize| #[trigger] mapping.fwd().contains_key(s) implies s == source.root_id()
            || c1.contains(s) by {
            if s != source.root_id() {
                let k = choose|k: int| 0 <= k < c1.len() && #[trigger] c1[k] == s;
                assert(c1[k] == s);
            }
        }
    }
    mapping
}

/// Links `s` to `d` when that is a link line matching may make.
fn link_lines(source: &Tree, destination: &Tree, s: NodeId, d: NodeId, mapping: &mut Mapping)
    requires
        source.wf(),
        destination.wf(),
        old(mapping).wf(),
        old(mapping).fits(source.arena().len(), destination.arena().len()),
        line_links_ok(source.arena(), source.root_id(), destination.arena(), destination.root_id(), *old(mapping)),
        old(mapping).fwd().contains_key(source.root_id() as usize),
        old(mapping).fwd()[source.root_id() as usize] == destination.root_id(),
        s < source.arena().len(),
        d < destination.arena().len(),
        line_link_ok(source.arena(), source.root_id(), destination.arena(), destination.root_id(), s, d),
    ensures
        final(mapping).wf(),
        final(mapping).fits(source.arena().len(), destination.arena().len()),
        line_links_ok(source.arena(), source.root_id(), destination.arena(), destination.root_id(), *final(mapping)),
        final(mapping).fwd().contains_key(source.root_id() as usize),
        final(mapping).fwd()[source.root_id() as usize] == destination.root_id(),
        !old(mapping).fwd().contains_key(s) && !old(mapping).bwd().contains_key(d) ==> final(mapping).fwd()
            == old(mapping).fwd().insert(s, d),
{
    mapping.link(s, d);
}

/// `m` links the roots; among the first `n` children of `r1` exactly those
/// that `picks` gives a line, each to the child of `r2` at that line; and
/// nothing outside the roots and those `n` children.
pub open spec fn links_upto(t1: Seq<Node>, r1: int, t2: Seq<Node>, r2: int, picks: Seq<Option<int>>, n: int, m: Mapping) -> bool {
    let c1 = t1[r1].children@;
    let c2 = t2[r2].children@;
    &&& m.fwd().contains_key(r1 as usize)
    &&& m.fwd()[r1 as usize] == r2
    &&& forall|k: int| 0 <= k < n ==> (m.fwd().contains_key(#[trigger] c1[k]) <==> picks[k] is Some)
    &&& forall|k: int| 0 <= k < n && picks[k] is Some ==> m.fwd()[#[trigger] c1[k]] == c2[picks[k]->0]
    &&& forall|s: usize| #[trigger]
        m.fwd().contains_key(s) ==> s == r1 || exists|k: int| 0 <= k < n && #[trigger] c1[k] == s
}

/// Under [`links_upto`], the next child of `r1` is not linked yet.
proof fn lemma_source_fresh(t1: Seq<Node>, r1: int, t2: Seq<Node>, r2: int, picks: Seq<Option<int>>, n: int, m: Mapping)
    requires
        crate::tree::arena_wf(t1, r1),
        links_upto(t1, r1, t2, r2, picks, n, m),
        0 <= n < t1[r1].children@.len(),
    ensures
        !m.fwd().contains_key(t1[r1].children@[n]),
{
    let c1 = t1[r1].children@;
    assert(r1 < c1[n]);
    if m.fwd().contains_key(c1[n]) {
        let k = choose|k: int| 0 <= k < n && #[trigger] c1[k] == c1[n];
        assert(c1[k] < c1[n]);
    }
}

/// Under [`links_upto`], a child of `r2` that no pick uses is not linked
/// yet.
proof fn lemma_destination_fresh(
    t1: Seq<Node>,
    r1: int,
    t2: Seq<Node>,
    r2: int,
    picks: Seq<Option<int>>,
    n: int,
    m: Mapping,
    j: int,
)
    requires
        crate::tree::arena_wf(t1, r1),
        crate::tree::arena_wf(t2, r2),
        m.wf(),
        links_upto(t1, r1, t2, r2, picks, n, m),
        0 <= j < t2[r2].children@.len(),
        forall|k: int|
            0 <= k < n && #[trigger] picks[k] is Some ==> picks[k]->0 != j && 0 <= picks[k]->0
                < t2[r2].children@.len(),
    ensures
        !m.bwd().contains_key(t2[r2].children@[j]),
{
    let c1 = t1[r1].children@;
    let c2 = t2[r2].children@;
    assert(r2 < c2[j]);
    if m.bwd().contains_key(c2[j]) {
        let s = m.bwd()[c2[j]];
        assert(m.fwd().contains_key(s) && m.fwd()[s] == c2[j]);
        if s as int != r1 {
            let k = choose|k: int| 0 <= k < n && #[trigger] c1[k] == s;
            assert(m.fwd().contains_key(c1[k]));
            assert(picks[k] is Some);
            let jk = picks[k]->0;
            assert(m.fwd()[c1[k]] == c2[jk]);
            assert(jk != j);
            if jk < j {
                assert(c2[jk] < c2[j]);
            } else {
                assert(c2[j] < c2[jk]);
            }
        }
    }
}

/// Phase 1: pairs lines with identical content by positional proximity.
///
/// For each source line, in order, the closest unmatched destination line
/// with the same content is matched (the earlier one on a tie). This
/// preserves order for lines that didn't move and correctly detects moves
/// for those that did.
fn match_exact_content(
    source: &Tree,
    destination: &Tree,
    matched_sources: &mut Vec<bool>,
    matched_destinations: &mut Vec<bool>,
    mapping: &mut Mapping,
)
    requires
        source.wf(),
        destination.wf(),
        old(matched_sources)@ == Seq::new(source.arena()[source.root_id()].children@.len(), |k: int| false),
        old(matched_destinations)@ == Seq::new(
            destination.arena()[destination.root_id()].children@.len(),
            |k: int| false,
        ),
        old(mapping).wf(),
        old(mapping).fits(source.arena().len(), destination.arena().len()),
        line_links_ok(source.arena(), source.root_id(), destination.arena(), destination.root_id(), *old(mapping)),
        links_upto(
            source.arena(),
            source.root_id(),
            destination.arena(),
            destination.root_id(),
            Seq::empty(),
            0,
            *old(mapping),
        ),
    ensures
        ({
            let l1 = child_labels(source.arena(), source.root_id());
            let l2 = child_labels(destination.arena(), destination.root_id());
            let (taken, picks) = exact_phase(l1, l2, l1.len());
            &&& final(matched_destinations)@ == taken
            &&& final(matched_sources)@.len() == l1.len()
            &&& forall|k: int| 0 <= k < l1.len() ==> #[trigger] final(matched_sources)@[k] == picks[k] is Some
            &&& links_upto(
                source.arena(),
                source.root_id(),
                destination.arena(),
                destination.root_id(),
                picks,
                l1.len() as int,
                *final(mapping),
            )
        }),
        final(mapping).wf(),
        final(mapping).fits(source.arena().len(), destination.arena().len()),
        line_links_ok(source.arena(), source.root_id(), destination.arena(), destination.root_id(), *final(mapping)),
{
    let ghost t1 = source.arena();
    let ghost t2 = destination.arena();
    let ghost r1 = source.root_id();
    let ghost r2 = destination.root_id();
    let ghost l1 = child_labels(t1, r1);
    let ghost l2 = child_labels(t2, r2);
    proof {
        assert(crate::tree::arena_wf(t1, r1));
        assert(crate::tree::arena_wf(t2, r2));
        assert(exact_phase(l1, l2, 0).0 =~= matched_destinations@);
    }
    let source_children = &source.node(source.root()).children;
    let destination_children = &destination.node(destination.root()).children;
    let source_count = source_children.len();
    let destination_count = destination_children.len();

    let mut source_index: usize = 0;
    while source_index < source_count
        invariant
            source.wf(),
            destination.wf(),
            t1 == source.arena(),
            t2 == destination.arena(),
            r1 == source.root_id(),
            r2 == destination.root_id(),
            crate::tree::arena_wf(t1, r1),
            crate::tree::arena_wf(t2, r2),
            l1 == child_labels(t1, r1),
            l2 == child_labels(t2, r2),
            *source_children == t1[r1].children,
            *destination_children == t2[r2].children,
            source_count == source_children@.len(),
            destination_count == destination_children@.len(),
            matched_sources@.len() == source_count,
            source_index <= source_count,
            matched_destinations@ == exact_phase(l1, l2, source_index as nat).0,
            forall|k: int|
                0 <= k < source_index ==> #[trigger] matched_sources@[k] == exact_phase(l1, l2, source_index as nat).1[k] is Some,
            forall|k: int| source_index <= k < source_count ==> !#[trigger] matched_sources@[k],
            mapping.wf(),
            mapping.fits(t1.len(), t2.len()),
            line_links_ok(t1, r1, t2, r2, *mapping),
            links_upto(t1, r1, t2, r2, exact_phase(l1, l2, source_index as nat).1, source_index as int, *mapping),
        decreases source_count - source_index,
    {
        let ghost taken = matched_destinations@;
        let ghost picks = exact_phase(l1, l2, source_index as nat).1;
        proof {
            lemma_exact_phase(l1, l2, source_index as nat);
        }
        let source_id = source_children[source_index];
        proof {
            assert(t1[r1].children@[source_index as int] == source_id);
            assert(l1[source_index as int] == t1[source_id as int].label@);
        }
        let source_label = &source.node(source_id).label;

        // Find the closest unmatched destination with the same content.
        let mut best: Option<(usize, usize)> = None;
        let mut destination_index: usize = 0;
        while destination_index < destination_count
            invariant
                source.wf(),
                destination.wf(),
                t1 == source.arena(),
                t2 == destination.arena(),
                l2 == child_labels(t2, r2),
                r2 == destination.root_id(),
                *destination_children == t2[r2].children,
                destination_count == destination_children@.len(),
                matched_destinations@ == taken,
                taken.len() == destination_count,
                source_id < t1.len(),
                *source_label == t1[source_id as int].label,
                l1[source_index as int] == source_label@,
                destination_index <= destination_count,
                match best {
                    Some((j, dist)) => {
                        &&& j < destination_index
                        &&& dist == gap(source_index as int, j as int)
                        &&& same_unused(l1, l2, taken, source_index as int, j as int)
                        &&& forall|k: int|
                            0 <= k < destination_index && #[trigger] same_unused(l1, l2, taken, source_index as int, k)
                                ==> gap(source_index as int, j as int) < gap(source_index as int, k) || (gap(
                                source_index as int,
                                j as int,
                            ) == gap(source_index as int, k) && j <= k)
                    },
                    None => forall|k: int|
                        0 <= k < destination_index ==> !#[trigger] same_unused(l1, l2, taken, source_index as int, k),
                },
            decreases destination_count - destination_index,
        {
            let destination_id = destination_children[destination_index];
            proof {
                assert(t2[r2].children@[destination_index as int] == destination_id);
                assert(l2[destination_index as int] == t2[destination_id as int].label@);
                crate::tree::lemma_child_lower(t2, r2, r2, destination_index as int);
            }
            if !matched_destinations[destination_index] && destination.node(destination_id).label
                == *source_label {
                let distance = if source_index >= destination_index {
                    source_index - destination_index
                } else {
                    destination_index - source_index
                };
                let closer = match best {
                    None => true,
                    Some((_, best_distance)) => distance < best_distance,
                };
                if closer {
                    best = Some((destination_index, distance));
                }
            }
            destination_index += 1;
        }

        if let Some((destination_index, _)) = best {
            proof {
                assert(nearest_same(l1, l2, taken, source_index as int, destination_index as int));
                let w = choose|j: int| nearest_same(l1, l2, taken, source_index as int, j);
                lemma_nearest_unique(l1, l2, taken, source_index as int, w, destination_index as int);
                assert(nearest_same_line(l1, l2, taken, source_index as int) == Some(destination_index as int));
                assert forall|k: int| 0 <= k < source_index && #[trigger] picks[k] is Some implies picks[k]->0
                    != destination_index as int && 0 <= picks[k]->0 < t2[r2].children@.len() by {
                }
                lemma_source_fresh(t1, r1, t2, r2, picks, source_index as int, *mapping);
                lemma_destination_fresh(t1, r1, t2, r2, picks, source_index as int, *mapping, destination_index as int);
            }
            matched_sources.set(source_index, true);
            matched_destinations.set(destination_index, true);
            let destination_id = destination_children[destination_index];
            proof {
                assert(t2[r2].children@[destination_index as int] == destination_id);
                assert(t1[r1].children@.contains(source_id));
                assert(t2[r2].children@.contains(destination_id));
                assert(l2[destination_index as int] == t2[destination_id as int].label@);
            }
            let ghost before = *mapping;
            link_lines(source, destination, source_id, destination_id, mapping);
            proof {
                let next = exact_phase(l1, l2, (source_index + 1) as nat);
                assert(next.1 == picks.push(Some(destination_index as int)));
                assert(matched_destinations@ =~= next.0);
                assert(mapping.fwd() == before.fwd().insert(source_id, destination_id));
                let c1 = t1[r1].children@;
                assert forall|k: int| 0 <= k < source_index + 1 implies (mapping.fwd().contains_key(#[trigger] c1[k])
                    <==> next.1[k] is Some) by {
                    if k < source_index {
                        assert(next.1[k] == picks[k]);
                        assert(c1[k] < c1[source_index as int]);
                    }
                }
                assert forall|k: int| 0 <= k < source_index + 1 && next.1[k] is Some implies mapping.fwd()[#[trigger] c1[k]]
                    == t2[r2].children@[next.1[k]->0] by {
                    if k < source_index {
                        assert(next.1[k] == picks[k]);
                        assert(c1[k] < c1[source_index as int]);
                    }
                }
                assert forall|s: usize| #[trigger] mapping.fwd().contains_key(s) implies s == r1 || exists|k: int|
                    0 <= k < source_index + 1 && #[trigger] c1[k] == s by {
                    if s != source_id && s != r1 {
                        assert(before.fwd().contains_key(s));
                        let k = choose|k: int| 0 <= k < source_index && #[trigger] c1[k] == s;
                        assert(c1[k] == s);
                    } else if s == source_id {
                        assert(c1[source_index as int] == s);
                    }
                }
                assert forall|k: int| 0 <= k < source_index + 1 implies #[trigger] matched_sources@[k] == next.1[k] is Some by {
                    if k < source_index {
                        assert(next.1[k] == picks[k]);
                    }
                }
            }
        } else {
            proof {
                assert(!exists|j: int| nearest_same(l1, l2, taken, source_index as int, j));
                let next = exact_phase(l1, l2, (source_index + 1) as nat);
                assert(next.1 == picks.push(None));
                assert(next.0 == taken);
                let c1 = t1[r1].children@;
                lemma_source_fresh(t1, r1, t2, r2, picks, source_index as int, *mapping);
                assert forall|k: int| 0 <= k < source_index + 1 implies (mapping.fwd().contains_key(#[trigger] c1[k])
                    <==> next.1[k] is Some) by {
                    if k < source_index {
                        assert(next.1[k] == picks[k]);
                    }
                }
                assert forall|k: int| 0 <= k < source_index + 1 && next.1[k] is Some implies mapping.fwd()[#[trigger] c1[k]]
                    == t2[r2].children@[next.1[k]->0] by {
                    assert(next.1[k] == picks[k]);
                }
                assert forall|s: usize| #[trigger] mapping.fwd().contains_key(s) implies s == r1 || exists|k: int|
                    0 <= k < source_index + 1 && #[trigger] c1[k] == s by {
                    if s != r1 {
                        let k = choose|k: int| 0 <= k < source_index && #[trigger] c1[k] == s;
                        assert(c1[k] == s);
                    }
                }
                assert forall|k: int| 0 <= k < source_index + 1 implies #[trigger] matched_sources@[k] == next.1[k] is Some by {
                    if k < source_index {
                        assert(next.1[k] == picks[k]);
                    }
                }
            }
        }
        source_index += 1;
    }
}

/// `a >= b > c` gives `a > c`, for fractions with positive denominators.
proof fn lemma_frac_ge_gt(a: (nat, nat), b: (nat, nat), c: (nat, nat))
    requires
        a.1 > 0,
        b.1 > 0,
        c.1 > 0,
        frac_ge(a, b),
        !frac_ge(c, b),
    ensures
        frac_gt(a, c),
{
    let (an, ad) = (a.0 as int, a.1 as int);
    let (bn, bd) = (b.0 as int, b.1 as int);
    let (cn, cd) = (c.0 as int, c.1 as int);
    assert(an * bd * cd >= bn * ad * cd) by (nonlinear_arith)
        requires
            an * bd >= bn * ad,
            cd > 0,
    ;
    assert(bn * cd * ad > cn * bd * ad) by (nonlinear_arith)
        requires
            bn * cd > cn * bd,
            ad > 0,
    ;
    assert(an * cd > cn * ad) by (nonlinear_arith)
        requires
            an * bd * cd >= bn * ad * cd,
            bn * cd * ad > cn * bd * ad,
            bd > 0,
    ;
}

/// `a > b >= c` gives `a > c`, for fractions with positive denominators.
proof fn lemma_frac_gt_ge(a: (nat, nat), b: (nat, nat), c: (nat, nat))
    requires
        a.1 > 0,
        b.1 > 0,
        c.1 > 0,
        frac_gt(a, b),
        frac_ge(b, c),
    ensures
        frac_gt(a, c),
{
    let (an, ad) = (a.0 as int, a.1 as int);
    let (bn, bd) = (b.0 as int, b.1 as int);
    let (cn, cd) = (c.0 as int, c.1 as int);
    assert(an * bd * cd > bn * ad * cd) by (nonlinear_arith)
        requires
            an * bd > bn * ad,
            cd > 0,
    ;
    assert(bn * cd * ad >= cn * bd * ad) by (nonlinear_arith)
        requires
            bn * cd >= cn * bd,
            ad > 0,
    ;
    assert(an * cd > cn * ad) by (nonlinear_arith)
        requires
            an * bd * cd > bn * ad * cd,
            bn * cd * ad >= cn * bd * ad,
            bd > 0,
    ;
}

/// Phase one leaves phase two a pool of distinct unused destination lines,
/// and none of them is a line phase one gave away.
proof fn lemma_phase_two_start(l1: Seq<Seq<char>>, l2: Seq<Seq<char>>)
    ensures
        ({
            let (taken, first) = exact_phase(l1, l2, l1.len());
            let pool0 = unused_lines(taken, l2.len());
            &&& first.len() == l1.len()
            &&& pool0.no_duplicates()
            &&& forall|q: int| 0 <= q < pool0.len() ==> 0 <= #[trigger] pool0[q] < l2.len()
            &&& forall|k: int|
                0 <= k < first.len() && #[trigger] first[k] is Some ==> 0 <= first[k]->0 < l2.len()
                    && !pool0.contains(first[k]->0)
        }),
{
    lemma_exact_phase(l1, l2, l1.len());
    let (taken, first) = exact_phase(l1, l2, l1.len());
    lemma_unused_lines(taken, l2.len());
    let pool0 = unused_lines(taken, l2.len());
    assert forall|k: int| 0 <= k < first.len() && #[trigger] first[k] is Some implies 0 <= first[k]->0 < l2.len()
        && !pool0.contains(first[k]->0) by {
        if pool0.contains(first[k]->0) {
            let q = choose|q: int| 0 <= q < pool0.len() && pool0[q] == first[k]->0;
            assert(!taken[pool0[q]]);
        }
    }
    assert forall|a: int, b: int| 0 <= a < pool0.len() && 0 <= b < pool0.len() && a != b implies pool0[a] != pool0[b] by {
        if a < b {
            assert(pool0[a] < pool0[b]);
        } else {
            assert(pool0[b] < pool0[a]);
        }
    }
}

/// Phase 2: pairs remaining unmatched lines by content similarity.
///
/// For every unmatched source line, finds the most similar unmatched
/// destination line (the earliest on a tie). If the normalised similarity
/// meets one half, the pair is linked. The action generator then emits
/// `update-node` for the label change rather than a separate delete and
/// insert.
fn match_similar_content(
    source: &Tree,
    destination: &Tree,
    matched_sources: &Vec<bool>,
    matched_destinations: &Vec<bool>,
    mapping: &mut Mapping,
)
    requires
        source.wf(),
        destination.wf(),
        source.labels_fit(),
        destination.labels_fit(),
        ({
            let l1 = child_labels(source.arena(), source.root_id());
            let l2 = child_labels(destination.arena(), destination.root_id());
            let (taken, first) = exact_phase(l1, l2, l1.len());
            &&& matched_destinations@ == taken
            &&& matched_sources@.len() == l1.len()
            &&& forall|k: int| 0 <= k < l1.len() ==> #[trigger] matched_sources@[k] == first[k] is Some
            &&& links_upto(
                source.arena(),
                source.root_id(),
                destination.arena(),
                destination.root_id(),
                first,
                l1.len() as int,
                *old(mapping),
            )
        }),
        old(mapping).wf(),
        old(mapping).fits(source.arena().len(), destination.arena().len()),
        line_links_ok(source.arena(), source.root_id(), destination.arena(), destination.root_id(), *old(mapping)),
    ensures
        final(mapping).wf(),
        final(mapping).fits(source.arena().len(), destination.arena().len()),
        line_links_ok(source.arena(), source.root_id(), destination.arena(), destination.root_id(), *final(mapping)),
        links_upto(
            source.arena(),
            source.root_id(),
            destination.arena(),
            destination.root_id(),
            line_pairs(
                child_labels(source.arena(), source.root_id()),
                child_labels(destination.arena(), destination.root_id()),
            ),
            source.arena()[source.root_id()].children@.len() as int,
            *final(mapping),
        ),
{
    let ghost t1 = source.arena();
    let ghost t2 = destination.arena();
    let ghost r1 = source.root_id();
    let ghost r2 = destination.root_id();
    let ghost l1 = child_labels(t1, r1);
    let ghost l2 = child_labels(t2, r2);
    let ghost taken = exact_phase(l1, l2, l1.len()).0;
    let ghost first = exact_phase(l1, l2, l1.len()).1;
    let ghost pool0 = unused_lines(taken, l2.len());
    proof {
        assert(crate::tree::arena_wf(t1, r1));
        assert(crate::tree::arena_wf(t2, r2));
        lemma_exact_phase(l1, l2, l1.len());
        lemma_phase_two_start(l1, l2);
    }
    let source_children = &source.node(source.root()).children;
    let destination_children = &destination.node(destination.root()).children;
    let source_count = source_children.len();
    let destination_count = destination_children.len();

    let mut unmatched_destination_indices: Vec<usize> = Vec::new();
    let mut j: usize = 0;
    while j < destination_count
        invariant
            matched_destinations@ == taken,
            taken.len() == destination_count,
            j <= destination_count,
            unmatched_destination_indices@.len() == unused_lines(taken, j as nat).len(),
            forall|q: int|
                0 <= q < unmatched_destination_indices@.len() ==> #[trigger] unmatched_destination_indices@[q]
                    == unused_lines(taken, j as nat)[q],
        decreases destination_count - j,
    {
        if !matched_destinations[j] {
            unmatched_destination_indices.push(j);
        }
        j += 1;
    }

    let threshold = min_similarity();
    let mut source_index: usize = 0;
    while source_index < source_count
        invariant
            source.wf(),
            destination.wf(),
            source.labels_fit(),
            destination.labels_fit(),
            t1 == source.arena(),
            t2 == destination.arena(),
            r1 == source.root_id(),
            r2 == destination.root_id(),
            crate::tree::arena_wf(t1, r1),
            crate::tree::arena_wf(t2, r2),
            l1 == child_labels(t1, r1),
            l2 == child_labels(t2, r2),
            first == exact_phase(l1, l2, l1.len()).1,
            first.len() == l1.len(),
            pool0 == unused_lines(exact_phase(l1, l2, l1.len()).0, l2.len()),
            pool0.no_duplicates(),
            forall|q: int| 0 <= q < pool0.len() ==> 0 <= #[trigger] pool0[q] < l2.len(),
            forall|k: int|
                0 <= k < first.len() && #[trigger] first[k] is Some ==> 0 <= first[k]->0 < l2.len()
                    && !pool0.contains(first[k]->0),
            *source_children == t1[r1].children,
            *destination_children == t2[r2].children,
            source_count == source_children@.len(),
            destination_count == destination_children@.len(),
            matched_sources@.len() == source_count,
            forall|k: int| 0 <= k < source_count ==> #[trigger] matched_sources@[k] == first[k] is Some,
            source_index <= source_count,
            threshold.numerator == 1 && threshold.denominator == 2,
            unmatched_destination_indices@.len() == similar_phase(l1, l2, first, pool0, source_index as nat).0.len(),
            forall|q: int|
                0 <= q < unmatched_destination_indices@.len() ==> #[trigger] unmatched_destination_indices@[q]
                    == similar_phase(l1, l2, first, pool0, source_index as nat).0[q],
            mapping.wf(),
            mapping.fits(t1.len(), t2.len()),
            line_links_ok(t1, r1, t2, r2, *mapping),
            links_upto(
                t1,
                r1,
                t2,
                r2,
                similar_phase(l1, l2, first, pool0, source_index as nat).1 + first.subrange(
                    source_index as int,
                    first.len() as int,
                ),
                source_count as int,
                *mapping,
            ),
        decreases source_count - source_index,
    {
        let ghost pool = similar_phase(l1, l2, first, pool0, source_index as nat).0;
        let ghost picks = similar_phase(l1, l2, first, pool0, source_index as nat).1;
        let ghost cur = picks + first.subrange(source_index as int, first.len() as int);
        let ghost next_state = similar_phase(l1, l2, first, pool0, (source_index + 1) as nat);
        proof {
            lemma_similar_phase(l1, l2, first, pool0, source_index as nat);
            assert(l1.len() == source_count);
            assert(l2.len() == destination_count);
        }
        if matched_sources[source_index] {
            proof {
                assert(first[source_index as int] is Some);
                assert(next_state.1 + first.subrange(source_index + 1, first.len() as int) =~= cur);
            }
            source_index += 1;
            continue;
        }
        let source_id = source_children[source_index];
        proof {
            assert(t1[r1].children@[source_index as int] == source_id);
            assert(l1[source_index as int] == t1[source_id as int].label@);
        }
        let source_label = source.node(source_id).label.as_str();

        let mut best_position: Option<usize> = None;
        let mut best_similarity = threshold;
        let mut position: usize = 0;
        while position < unmatched_destination_indices.len()
            invariant
                source.wf(),
                destination.wf(),
                source.labels_fit(),
                destination.labels_fit(),
                t1 == source.arena(),
                t2 == destination.arena(),
                r2 == destination.root_id(),
                l2 == child_labels(t2, r2),
                *destination_children == t2[r2].children,
                destination_count == destination_children@.len(),
                l2.len() == destination_count,
                source_id < t1.len(),
                source_label@ == t1[source_id as int].label@,
                l1[source_index as int] == source_label@,
                unmatched_destination_indices@.len() == pool.len(),
                forall|q: int|
                    0 <= q < unmatched_destination_indices@.len() ==> #[trigger] unmatched_destination_indices@[q]
                        == pool[q],
                forall|q: int| 0 <= q < pool.len() ==> 0 <= #[trigger] pool[q] < l2.len(),
                position <= unmatched_destination_indices@.len(),
                best_similarity.wf(),
                match best_position {
                    Some(p) => {
                        &&& p < position
                        &&& (best_similarity.numerator as nat, best_similarity.denominator as nat)
                            == line_similarity(l1, l2, source_index as int, pool[p as int])
                        &&& frac_ge(line_similarity(l1, l2, source_index as int, pool[p as int]), (1, 2))
                        &&& forall|q: int|
                            0 <= q < p ==> frac_gt(
                                line_similarity(l1, l2, source_index as int, pool[p as int]),
                                line_similarity(l1, l2, source_index as int, #[trigger] pool[q]),
                            )
                        &&& forall|q: int|
                            p < q < position ==> frac_ge(
                                line_similarity(l1, l2, source_index as int, pool[p as int]),
                                line_similarity(l1, l2, source_index as int, #[trigger] pool[q]),
                            )
                    },
                    None => {
                        &&& best_similarity.numerator == 1 && best_similarity.denominator == 2
                        &&& forall|q: int|
                            0 <= q < position ==> !frac_ge(
                                line_similarity(l1, l2, source_index as int, #[trigger] pool[q]),
                                (1, 2),
                            )
                    },
                },
            decreases unmatched_destination_indices@.len() - position,
        {
            let destination_index = unmatched_destination_indices[position];
            let destination_id = destination_children[destination_index];
            proof {
                assert(destination_index as int == pool[position as int]);
                assert(t2[r2].children@[destination_index as int] == destination_id);
                assert(l2[destination_index as int] == t2[destination_id as int].label@);
            }
            let destination_label = destination.node(destination_id).label.as_str();
            let similarity = normalised_similarity(source_label, destination_label);
            let ghost here = line_similarity(l1, l2, source_index as int, pool[position as int]);
            proof {
                assert(here == (similarity.numerator as nat, similarity.denominator as nat));
            }
            // The first line to reach the minimum is taken; after that only a
            // strictly more similar one replaces it.
            let take = match best_position {
                None => similarity.ge(&best_similarity),
                Some(_) => similarity.gt(&best_similarity),
            };
            if take {
                proof {
                    lemma_similarity_range(l1[source_index as int], l2[pool[position as int]]);
                    match best_position {
                        None => {
                            assert(frac_ge(here, (1, 2)));
                            assert forall|q: int| 0 <= q < position implies frac_gt(
                                here,
                                line_similarity(l1, l2, source_index as int, #[trigger] pool[q]),
                            ) by {
                                let other = line_similarity(l1, l2, source_index as int, pool[q]);
                                lemma_similarity_range(l1[source_index as int], l2[pool[q]]);
                                lemma_frac_ge_gt(here, (1, 2), other);
                            }
                        },
                        Some(p) => {
                            let best = line_similarity(l1, l2, source_index as int, pool[p as int]);
                            lemma_similarity_range(l1[source_index as int], l2[pool[p as int]]);
                            assert(frac_gt(here, best));
                            assert(frac_ge(best, (1, 2)));
                            lemma_frac_gt_ge(here, best, (1, 2));
                            assert(frac_ge(here, (1, 2)));
                            assert forall|q: int| 0 <= q < position implies frac_gt(
                                here,
                                line_similarity(l1, l2, source_index as int, #[trigger] pool[q]),
                            ) by {
                                let other = line_similarity(l1, l2, source_index as int, pool[q]);
                                lemma_similarity_range(l1[source_index as int], l2[pool[q]]);
                                if q < p {
                                    assert(frac_ge(best, other));
                                } else if q > p {
                                    assert(frac_ge(best, other));
                                } else {
                                    assert(other == best);
                                    assert(frac_ge(best, other));
                                }
                                lemma_frac_gt_ge(here, best, other);
                            }
                        },
                    }
                }
                best_similarity = similarity;
                best_position = Some(position);
            } else {
                proof {
                    match best_position {
                        None => {
                            assert(!frac_ge(here, (1, 2)));
                        },
                        Some(p) => {
                            assert(!frac_gt(here, line_similarity(l1, l2, source_index as int, pool[p as int])));
                        },
                    }
                }
            }
            position += 1;
        }

        proof {
            assert(first[source_index as int] is None);
        }
        if let Some(position) = best_position {
            proof {
                assert(most_similar(l1, l2, pool, source_index as int, position as int));
                let w = choose|p: int| most_similar(l1, l2, pool, source_index as int, p);
                lemma_most_similar_unique(l1, l2, pool, source_index as int, w, position as int);
                assert(most_similar_line(l1, l2, pool, source_index as int) == Some(position as int));
                assert(next_state.0 == pool.remove(position as int));
                assert(next_state.1 == picks.push(Some(pool[position as int])));
                assert(pool.contains(pool[position as int]));
                assert forall|k: int| 0 <= k < source_count && #[trigger] cur[k] is Some implies cur[k]->0
                    != pool[position as int] && 0 <= cur[k]->0 < t2[r2].children@.len() by {
                    if k < source_index {
                        assert(cur[k] == picks[k]);
                    } else {
                        assert(cur[k] == first[k]);
                        if first[k]->0 == pool[position as int] {
                            assert(pool0.contains(pool[position as int]));
                        }
                    }
                }
                assert(cur[source_index as int] == first[source_index as int]);
                lemma_destination_fresh(t1, r1, t2, r2, cur, source_count as int, *mapping, pool[position as int]);
                assert(!mapping.fwd().contains_key(t1[r1].children@[source_index as int]));
            }
            let ghost before_pool = unmatched_destination_indices@;
            let destination_index = unmatched_destination_indices.remove(position);
            let destination_id = destination_children[destination_index];
            proof {
                assert(destination_index as int == pool[position as int]);
                assert(t2[r2].children@[destination_index as int] == destination_id);
                assert(t1[r1].children@.contains(source_id));
                assert(t2[r2].children@.contains(destination_id));
            }
            let ghost before = *mapping;
            link_lines(source, destination, source_id, destination_id, mapping);
            proof {
                let next = next_state.1 + first.subrange(source_index + 1, first.len() as int);
                assert(next =~= cur.update(source_index as int, Some(destination_index as int)));
                assert(mapping.fwd() == before.fwd().insert(source_id, destination_id));
                let c1 = t1[r1].children@;
                assert forall|k: int| 0 <= k < source_count implies (mapping.fwd().contains_key(#[trigger] c1[k])
                    <==> next[k] is Some) by {
                    if k != source_index {
                        if k < source_index {
                            assert(c1[k] < c1[source_index as int]);
                        } else {
                            assert(c1[source_index as int] < c1[k]);
                        }
                    }
                }
                assert forall|k: int| 0 <= k < source_count && next[k] is Some implies mapping.fwd()[#[trigger] c1[k]]
                    == t2[r2].children@[next[k]->0] by {
                    if k != source_index {
                        if k < source_index {
                            assert(c1[k] < c1[source_index as int]);
                        } else {
                            assert(c1[source_index as int] < c1[k]);
                        }
                    }
                }
                assert forall|s: usize| #[trigger] mapping.fwd().contains_key(s) implies s == r1 || exists|k: int|
                    0 <= k < source_count && #[trigger] c1[k] == s by {
                    if s == source_id {
                        assert(c1[source_index as int] == s);
                    } else {
                        assert(before.fwd().contains_key(s));
                    }
                }
                let np = next_state.0;
                assert(unmatched_destination_indices@ == before_pool.remove(position as int));
                assert forall|q: int| 0 <= q < unmatched_destination_indices@.len() implies #[trigger] unmatched_destination_indices@[q]
                    == np[q] by {
                    if q < position {
                        assert(unmatched_destination_indices@[q] == before_pool[q]);
                    } else {
                        assert(unmatched_destination_indices@[q] == before_pool[q + 1]);
                    }
                }
            }
        } else {
            proof {
                assert forall|p: int| !most_similar(l1, l2, pool, source_index as int, p) by {
                    if most_similar(l1, l2, pool, source_index as int, p) {
                        assert(frac_ge(line_similarity(l1, l2, source_index as int, pool[p]), (1, 2)));
                    }
                }
                assert(most_similar_line(l1, l2, pool, source_index as int) is None);
                assert(next_state.1 == picks.push(None));
                assert(next_state.1 + first.subrange(source_index + 1, first.len() as int) =~= cur);
            }
        }
        source_index += 1;
    }
    proof {
        let fin = similar_phase(l1, l2, first, pool0, source_count as nat).1;
        assert(fin + first.subrange(source_count as int, first.len() as int) =~= fin);
        assert(fin == line_pairs(l1, l2));
    }
}

} // verus!

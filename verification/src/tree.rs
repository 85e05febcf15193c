//! Arena-backed trees for AST diffing.
//!
//! Nodes live in a `Vec<Node>` and refer to each other by index. Every node
//! added by [`TreeBuilder`] gets the next index, and its parent must already
//! exist, so a parent's index is always smaller than its children's. That
//! ordering is the backbone of every proof in this module: it bounds all
//! recursion and makes ancestry chains well founded.

use std::hash::Hasher;
use vstd::prelude::*;

verus! {

/// Index of a node within a [`Tree`]'s arena.
pub type NodeId = usize;

/// A single node in an AST.
#[derive(Debug, Clone)]
pub struct Node {
    pub id: NodeId,
    /// The node "type" (e.g. `block_mapping_pair`, `if_expression`).
    pub kind: String,
    /// Text content for leaves; empty string for internal nodes by convention.
    pub label: String,
    /// Byte offset of the node's start in the source file.
    pub start_byte: usize,
    /// Byte offset just past the node's end.
    pub end_byte: usize,
    pub parent: Option<NodeId>,
    pub children: Vec<NodeId>,
    /// 1 for a leaf; max(child.height) + 1 otherwise.
    pub height: usize,
    /// Number of nodes in the subtree rooted here (including this node).
    pub size: usize,
    /// Structural hash combining kind, label, and ordered child hashes.
    pub hash: u64,
}

// ---------------------------------------------------------------------------
// Structural model of an arena.
// ---------------------------------------------------------------------------

/// The children lists of every node of an arena.
pub open spec fn kids(nodes: Seq<Node>) -> Seq<Seq<usize>> {
    Seq::new(nodes.len(), |i: int| nodes[i].children@)
}

/// The parent links of every node of an arena.
pub open spec fn parents(nodes: Seq<Node>) -> Seq<Option<usize>> {
    Seq::new(nodes.len(), |i: int| nodes[i].parent)
}

/// What the structural hash of a node reads: kind, label and children.
pub open spec fn shapes(nodes: Seq<Node>) -> Seq<(Seq<char>, Seq<char>, Seq<usize>)> {
    Seq::new(nodes.len(), |i: int| (nodes[i].kind@, nodes[i].label@, nodes[i].children@))
}

/// `x` lies in the subtree rooted at `a` (`a` itself included): following
/// parent links from `x` reaches `a`.
pub open spec fn in_subtree(par: Seq<Option<usize>>, a: int, x: int) -> bool
    decreases x,
{
    if x == a {
        0 <= x < par.len()
    } else if 0 <= x < par.len() {
        match par[x] {
            Some(p) => p < x && in_subtree(par, a, p as int),
            None => false,
        }
    } else {
        false
    }
}

/// Pre-order listing of the subtree rooted at `i` (root before children).
pub open spec fn preorder(ch: Seq<Seq<usize>>, i: int) -> Seq<usize>
    decreases ch.len() - i, 1int, 0int,
{
    if 0 <= i < ch.len() {
        seq![i as usize] + preorder_kids(ch, i, ch[i].len() as int)
    } else {
        seq![]
    }
}

/// Concatenated pre-orders of the first `k` children of `i`.
pub open spec fn preorder_kids(ch: Seq<Seq<usize>>, i: int, k: int) -> Seq<usize>
    decreases ch.len() - i, 0int, k,
{
    if 0 <= i < ch.len() && 0 < k <= ch[i].len() {
        let c = ch[i][k - 1] as int;
        preorder_kids(ch, i, k - 1) + (if i < c < ch.len() {
            preorder(ch, c)
        } else {
            seq![]
        })
    } else {
        seq![]
    }
}

/// Post-order listing of the subtree rooted at `i` (children before root).
pub open spec fn postorder(ch: Seq<Seq<usize>>, i: int) -> Seq<usize>
    decreases ch.len() - i, 1int, 0int,
{
    if 0 <= i < ch.len() {
        postorder_kids(ch, i, ch[i].len() as int) + seq![i as usize]
    } else {
        seq![]
    }
}

/// Concatenated post-orders of the first `k` children of `i`.
pub open spec fn postorder_kids(ch: Seq<Seq<usize>>, i: int, k: int) -> Seq<usize>
    decreases ch.len() - i, 0int, k,
{
    if 0 <= i < ch.len() && 0 < k <= ch[i].len() {
        let c = ch[i][k - 1] as int;
        postorder_kids(ch, i, k - 1) + (if i < c < ch.len() {
            postorder(ch, c)
        } else {
            seq![]
        })
    } else {
        seq![]
    }
}

/// Number of nodes in the subtree rooted at `i`.
pub open spec fn subtree_size(ch: Seq<Seq<usize>>, i: int) -> nat {
    preorder(ch, i).len()
}

/// Height of the subtree rooted at `i`: 1 for a leaf.
pub open spec fn subtree_height(ch: Seq<Seq<usize>>, i: int) -> nat
    decreases ch.len() - i, 1int, 0int,
{
    if 0 <= i < ch.len() {
        1 + max_kid_height(ch, i, ch[i].len() as int)
    } else {
        0
    }
}

/// Largest height among the first `k` children of `i` (0 if none).
pub open spec fn max_kid_height(ch: Seq<Seq<usize>>, i: int, k: int) -> nat
    decreases ch.len() - i, 0int, k,
{
    if 0 <= i < ch.len() && 0 < k <= ch[i].len() {
        let c = ch[i][k - 1] as int;
        let h = if i < c < ch.len() {
            subtree_height(ch, c)
        } else {
            0
        };
        let rest = max_kid_height(ch, i, k - 1);
        if h > rest {
            h
        } else {
            rest
        }
    } else {
        0
    }
}

/// The eight little-endian bytes of a `u64`.
pub open spec fn le_bytes(h: u64) -> Seq<u8> {
    seq![
        h as u8,
        (h >> 8u64) as u8,
        (h >> 16u64) as u8,
        (h >> 24u64) as u8,
        (h >> 32u64) as u8,
        (h >> 40u64) as u8,
        (h >> 48u64) as u8,
        (h >> 56u64) as u8,
    ]
}

/// The writes that feed the structural hash of node `i`: its kind and label
/// bytes, each closed by a `0xff` byte, then each child's hash.
pub open spec fn hash_writes(
    sh: Seq<(Seq<char>, Seq<char>, Seq<usize>)>,
    i: int,
    k: int,
) -> Seq<Seq<u8>>
    decreases sh.len() - i, 0int, k,
{
    if 0 <= i < sh.len() && 0 < k <= sh[i].2.len() {
        let c = sh[i].2[k - 1] as int;
        let h = if i < c < sh.len() {
            subtree_hash(sh, c)
        } else {
            0u64
        };
        hash_writes(sh, i, k - 1).push(le_bytes(h))
    } else if 0 <= i < sh.len() {
        seq![
            vstd::utf8::encode_utf8(sh[i].0),
            seq![0xffu8],
            vstd::utf8::encode_utf8(sh[i].1),
            seq![0xffu8],
        ]
    } else {
        seq![]
    }
}

/// Structural hash of the subtree rooted at `i`: `DefaultHasher` fed with
/// [`hash_writes`].
pub open spec fn subtree_hash(sh: Seq<(Seq<char>, Seq<char>, Seq<usize>)>, i: int) -> u64
    decreases sh.len() - i, 1int, 0int,
{
    if 0 <= i < sh.len() {
        <std::collections::hash_map::DefaultHasher as vstd::std_specs::hash::DefaultHasherAdditionalSpecFns>::spec_finish(
            hash_writes(sh, i, sh[i].2.len() as int),
        )
    } else {
        0
    }
}

/// The subtrees rooted at `i` (in the first arena's shapes) and `j` (in the
/// second's) are isomorphic: same kind, same label, and pairwise isomorphic
/// children in the same order.
pub open spec fn isomorphic(
    sh1: Seq<(Seq<char>, Seq<char>, Seq<usize>)>,
    i: int,
    sh2: Seq<(Seq<char>, Seq<char>, Seq<usize>)>,
    j: int,
) -> bool
    decreases sh1.len() - i,
{
    &&& 0 <= i < sh1.len()
    &&& 0 <= j < sh2.len()
    &&& sh1[i].0 == sh2[j].0
    &&& sh1[i].1 == sh2[j].1
    &&& sh1[i].2.len() == sh2[j].2.len()
    &&& forall|k: int|
        0 <= k < sh1[i].2.len() ==> {
            let c1 = #[trigger] sh1[i].2[k] as int;
            let c2 = sh2[j].2[k] as int;
            &&& (i < c1 < sh1.len()) == (j < c2 < sh2.len())
            &&& (i < c1 < sh1.len() ==> isomorphic(sh1, c1, sh2, c2))
        }
}

/// Isomorphic subtrees feed the hasher the same writes.
pub proof fn lemma_isomorphic_writes(
    sh1: Seq<(Seq<char>, Seq<char>, Seq<usize>)>,
    i: int,
    sh2: Seq<(Seq<char>, Seq<char>, Seq<usize>)>,
    j: int,
    k: int,
)
    requires
        isomorphic(sh1, i, sh2, j),
        0 <= k <= sh1[i].2.len(),
    ensures
        hash_writes(sh1, i, k) == hash_writes(sh2, j, k),
    decreases sh1.len() - i, 0int, k,
{
    if k > 0 {
        lemma_isomorphic_writes(sh1, i, sh2, j, k - 1);
        let c1 = sh1[i].2[k - 1] as int;
        let c2 = sh2[j].2[k - 1] as int;
        if i < c1 < sh1.len() {
            lemma_isomorphic_hash(sh1, c1, sh2, c2);
        }
    }
}

/// Isomorphic subtrees have equal structural hashes.
pub proof fn lemma_isomorphic_hash(
    sh1: Seq<(Seq<char>, Seq<char>, Seq<usize>)>,
    i: int,
    sh2: Seq<(Seq<char>, Seq<char>, Seq<usize>)>,
    j: int,
)
    requires
        isomorphic(sh1, i, sh2, j),
    ensures
        subtree_hash(sh1, i) == subtree_hash(sh2, j),
    decreases sh1.len() - i, 1int, 0int,
{
    lemma_isomorphic_writes(sh1, i, sh2, j, sh1[i].2.len() as int);
}

/// Law: in two finished trees, nodes rooting isomorphic subtrees carry the
/// same structural hash.
pub proof fn lemma_isomorphic_nodes_hash_alike(t1: Tree, i: int, t2: Tree, j: int)
    requires
        t1.wf(),
        t2.wf(),
        in_subtree(parents(t1.arena()), t1.root_id(), i),
        in_subtree(parents(t2.arena()), t2.root_id(), j),
        isomorphic(shapes(t1.arena()), i, shapes(t2.arena()), j),
    ensures
        t1.arena()[i].hash == t2.arena()[j].hash,
{
    lemma_in_subtree_ge(parents(t1.arena()), t1.root_id(), i);
    lemma_in_subtree_ge(parents(t2.arena()), t2.root_id(), j);
    assert(metadata_ok(t1.arena(), i));
    assert(metadata_ok(t2.arena(), j));
    lemma_isomorphic_hash(shapes(t1.arena()), i, shapes(t2.arena()), j);
}

/// Links of an arena: ids match positions, every parent precedes its
/// children, parent and child lists agree, and children are listed in
/// increasing id order.
pub open spec fn arena_links(nodes: Seq<Node>) -> bool {
    &&& forall|i: int| 0 <= i < nodes.len() ==> #[trigger] nodes[i].id == i
    &&& forall|i: int|
        0 <= i < nodes.len() ==> match #[trigger] nodes[i].parent {
            Some(p) => p < i && nodes[p as int].children@.contains(i as usize),
            None => true,
        }
    &&& forall|i: int, k: int|
        0 <= i < nodes.len() && 0 <= k < nodes[i].children@.len() ==> {
            let c = #[trigger] nodes[i].children@[k];
            &&& i < c < nodes.len()
            &&& nodes[c as int].parent == Some(i as usize)
        }
    &&& forall|i: int, k1: int, k2: int|
        0 <= i < nodes.len() && 0 <= k1 < k2 < nodes[i].children@.len() ==> #[trigger] nodes[i].children@[k1]
            < #[trigger] nodes[i].children@[k2]
}

/// The cached height, size and hash of node `i` are those of its subtree.
pub open spec fn metadata_ok(nodes: Seq<Node>, i: int) -> bool {
    &&& nodes[i].height == subtree_height(kids(nodes), i)
    &&& nodes[i].size == subtree_size(kids(nodes), i)
    &&& nodes[i].hash == subtree_hash(shapes(nodes), i)
}

/// Node `i` carries no metadata yet.
pub open spec fn metadata_blank(nodes: Seq<Node>, i: int) -> bool {
    &&& nodes[i].height == 0
    &&& nodes[i].size == 0
    &&& nodes[i].hash == 0
}

/// A finished tree: linked arena, valid root, and metadata computed for
/// exactly the nodes under the root.
pub open spec fn arena_wf(nodes: Seq<Node>, root: int) -> bool {
    &&& 0 <= root < nodes.len()
    &&& arena_links(nodes)
    &&& forall|i: int|
        0 <= i < nodes.len() ==> if in_subtree(parents(nodes), root, i) {
            metadata_ok(nodes, i)
        } else {
            metadata_blank(nodes, i)
        }
}

/// Two arenas hold the same tree: node for node the same kind, label,
/// parent and children.
pub open spec fn same_tree(t1: Seq<Node>, t2: Seq<Node>) -> bool {
    &&& t1.len() == t2.len()
    &&& forall|i: int|
        0 <= i < t1.len() ==> (#[trigger] t1[i]).kind@ == t2[i].kind@ && t1[i].label@ == t2[i].label@
            && t1[i].parent == t2[i].parent && t1[i].children@ == t2[i].children@
}

/// Two finished arenas holding the same tree from the same root agree on
/// everything the structure determines: links, and every node's height,
/// size and hash.
pub proof fn lemma_same_tree_metadata(t1: Seq<Node>, t2: Seq<Node>, r: int)
    requires
        same_tree(t1, t2),
        arena_wf(t1, r),
        arena_wf(t2, r),
    ensures
        parents(t1) == parents(t2),
        kids(t1) == kids(t2),
        shapes(t1) == shapes(t2),
        forall|i: int|
            0 <= i < t1.len() ==> (#[trigger] t1[i]).height == t2[i].height && t1[i].size == t2[i].size
                && t1[i].hash == t2[i].hash,
{
    assert(parents(t1) =~= parents(t2));
    assert(kids(t1) =~= kids(t2));
    assert(shapes(t1) =~= shapes(t2));
    assert forall|i: int| 0 <= i < t1.len() implies (#[trigger] t1[i]).height == t2[i].height && t1[i].size
        == t2[i].size && t1[i].hash == t2[i].hash by {
        if in_subtree(parents(t1), r, i) {
            assert(metadata_ok(t1, i) && metadata_ok(t2, i));
        } else {
            assert(metadata_blank(t1, i) && metadata_blank(t2, i));
        }
    }
}

// ---------------------------------------------------------------------------
// Lemmas about ancestry and traversals.
// ---------------------------------------------------------------------------

/// An ancestor never has a larger id than its descendants.
pub proof fn lemma_in_subtree_ge(par: Seq<Option<usize>>, a: int, x: int)
    requires
        in_subtree(par, a, x),
    ensures
        0 <= a <= x < par.len(),
    decreases x,
{
    if x != a {
        let p = par[x].unwrap() as int;
        lemma_in_subtree_ge(par, a, p);
    }
}

/// Two ancestors of the same node are themselves related by ancestry.
pub proof fn lemma_ancestors_ordered(par: Seq<Option<usize>>, a: int, b: int, x: int)
    requires
        in_subtree(par, a, x),
        in_subtree(par, b, x),
        a <= b,
    ensures
        in_subtree(par, a, b),
    decreases x,
{
    lemma_in_subtree_ge(par, b, x);
    if x != b && x != a {
        let p = par[x].unwrap() as int;
        lemma_ancestors_ordered(par, a, b, p);
    }
}

/// A node under a child of `i` is under `i`.
pub proof fn lemma_in_subtree_lift(par: Seq<Option<usize>>, i: int, c: int, x: int)
    requires
        in_subtree(par, c, x),
        0 <= i < c < par.len(),
        par[c] is Some,
        par[c].unwrap() == i,
    ensures
        in_subtree(par, i, x),
    decreases x,
{
    if x != c {
        let p = par[x].unwrap() as int;
        lemma_in_subtree_lift(par, i, c, p);
    } else {
        assert(in_subtree(par, i, i));
    }
}

/// Subtrees of two distinct children of the same node are disjoint.
pub proof fn lemma_siblings_disjoint(nodes: Seq<Node>, i: int, c1: int, c2: int, x: int)
    requires
        arena_links(nodes),
        0 <= i < nodes.len(),
        i < c1 < c2 < nodes.len(),
        nodes[c1].parent is Some,
        nodes[c1].parent.unwrap() == i,
        nodes[c2].parent is Some,
        nodes[c2].parent.unwrap() == i,
        in_subtree(parents(nodes), c1, x),
    ensures
        !in_subtree(parents(nodes), c2, x),
{
    let par = parents(nodes);
    if in_subtree(par, c2, x) {
        lemma_ancestors_ordered(par, c1, c2, x);
        assert(par[c2] == nodes[c2].parent);
        assert(in_subtree(par, c1, i));
        lemma_in_subtree_ge(par, c1, i);
    }
}

/// Every node listed by `preorder(i)` lies under `i`, each once, and no
/// more nodes are listed than the arena holds from `i` on.
pub proof fn lemma_preorder_members(nodes: Seq<Node>, i: int)
    requires
        arena_links(nodes),
        0 <= i < nodes.len(),
    ensures
        forall|j: int|
            0 <= j < preorder(kids(nodes), i).len() ==> in_subtree(
                parents(nodes),
                i,
                #[trigger] preorder(kids(nodes), i)[j] as int,
            ),
        preorder(kids(nodes), i).no_duplicates(),
        preorder(kids(nodes), i).len() >= 1,
        preorder(kids(nodes), i)[0] == i,
    decreases nodes.len() - i, 1int, 0int,
{
    let ch = kids(nodes);
    let par = parents(nodes);
    assert(nodes[i].id == i);
    let m = ch[i].len() as int;
    lemma_preorder_kids_members(nodes, i, m);
    let rest = preorder_kids(ch, i, m);
    assert(preorder(ch, i) == seq![i as usize] + rest);
    assert forall|j: int| 0 <= j < preorder(ch, i).len() implies in_subtree(
        par,
        i,
        #[trigger] preorder(ch, i)[j] as int,
    ) by {
        if j > 0 {
            assert(preorder(ch, i)[j] == rest[j - 1]);
        }
    }
    vstd::seq_lib::lemma_no_dup_in_concat(seq![i as usize], rest);
}

/// Members of the concatenated pre-orders of the first `k` children of `i`.
pub proof fn lemma_preorder_kids_members(nodes: Seq<Node>, i: int, k: int)
    requires
        arena_links(nodes),
        0 <= i < nodes.len(),
        0 <= k <= nodes[i].children@.len(),
    ensures
        forall|j: int|
            0 <= j < preorder_kids(kids(nodes), i, k).len() ==> {
                let x = #[trigger] preorder_kids(kids(nodes), i, k)[j] as int;
                &&& in_subtree(parents(nodes), i, x)
                &&& x != i
                &&& forall|m: int|
                    k <= m < nodes[i].children@.len() ==> !in_subtree(
                        parents(nodes),
                        #[trigger] nodes[i].children@[m] as int,
                        x,
                    )
            },
        preorder_kids(kids(nodes), i, k).no_duplicates(),
    decreases nodes.len() - i, 0int, k,
{
    let ch = kids(nodes);
    let par = parents(nodes);
    if k > 0 {
        lemma_preorder_kids_members(nodes, i, k - 1);
        let c = ch[i][k - 1] as int;
        assert(nodes[i].children@[k - 1] == c);
        assert(i < c < nodes.len());
        lemma_preorder_members(nodes, c);
        let left = preorder_kids(ch, i, k - 1);
        let right = preorder(ch, c);
        assert(preorder_kids(ch, i, k) == left + right);
        assert forall|j: int| 0 <= j < (left + right).len() implies {
            let x = #[trigger] (left + right)[j] as int;
            &&& in_subtree(par, i, x)
            &&& x != i
            &&& forall|m: int|
                k <= m < nodes[i].children@.len() ==> !in_subtree(
                    par,
                    #[trigger] nodes[i].children@[m] as int,
                    x,
                )
        } by {
            if j >= left.len() {
                let x = right[j - left.len()] as int;
                assert((left + right)[j] == right[j - left.len()]);
                lemma_in_subtree_lift(par, i, c, x);
                lemma_in_subtree_ge(par, c, x);
                assert forall|m: int| k <= m < nodes[i].children@.len() implies !in_subtree(
                    par,
                    #[trigger] nodes[i].children@[m] as int,
                    x,
                ) by {
                    let c2 = nodes[i].children@[m] as int;
                    assert(c < c2);
                    lemma_siblings_disjoint(nodes, i, c, c2, x);
                }
            } else {
                assert((left + right)[j] == left[j]);
            }
        }
        assert forall|a: int, b: int|
            0 <= a < left.len() && 0 <= b < right.len() implies left[a] != right[b] by {
            let x = right[b] as int;
            assert(in_subtree(par, c, x));
            assert(nodes[i].children@[k - 1] == c);
            if left[a] == right[b] {
                assert(!in_subtree(par, nodes[i].children@[k - 1] as int, left[a] as int));
            }
        }
        vstd::seq_lib::lemma_no_dup_in_concat(left, right);
    }
}

/// The nodes `x` with `lo <= x < hi`, as a set of `usize`.
pub open spec fn usize_range(lo: int, hi: int) -> Set<usize> {
    Set::new(|x: usize| lo <= x < hi)
}

pub proof fn lemma_usize_range(lo: int, hi: int)
    requires
        0 <= lo <= hi,
    ensures
        usize_range(lo, hi).finite(),
        usize_range(lo, hi).len() <= hi - lo,
    decreases hi - lo,
{
    if lo == hi {
        assert(usize_range(lo, hi) =~= Set::empty());
    } else {
        lemma_usize_range(lo, hi - 1);
        if hi - 1 <= usize::MAX {
            assert(usize_range(lo, hi) =~= usize_range(lo, hi - 1).insert((hi - 1) as usize));
        } else {
            assert(usize_range(lo, hi) =~= usize_range(lo, hi - 1));
        }
    }
}

/// A subtree holds no more nodes than the arena has from its root on.
pub proof fn lemma_subtree_size_bound(nodes: Seq<Node>, i: int)
    requires
        arena_links(nodes),
        0 <= i < nodes.len(),
    ensures
        1 <= subtree_size(kids(nodes), i) <= nodes.len() - i,
{
    let s = preorder(kids(nodes), i);
    lemma_preorder_members(nodes, i);
    s.unique_seq_to_set();
    assert forall|x: usize| s.to_set().contains(x) implies usize_range(i, nodes.len() as int).contains(
        x,
    ) by {
        let j = choose|j: int| 0 <= j < s.len() && s[j] == x;
        lemma_in_subtree_ge(parents(nodes), i, x as int);
    }
    lemma_usize_range(i, nodes.len() as int);
    vstd::set_lib::lemma_len_subset(s.to_set(), usize_range(i, nodes.len() as int));
}

/// The pre-order of the first `k` children never outgrows that of all of them.
pub proof fn lemma_preorder_kids_monotone(ch: Seq<Seq<usize>>, i: int, k: int, m: int)
    requires
        0 <= i < ch.len(),
        0 <= k <= m <= ch[i].len(),
    ensures
        preorder_kids(ch, i, k).len() <= preorder_kids(ch, i, m).len(),
    decreases m - k,
{
    if k < m {
        lemma_preorder_kids_monotone(ch, i, k, m - 1);
    }
}

/// A subtree is at least as large as it is high.
pub proof fn lemma_height_le_size(ch: Seq<Seq<usize>>, i: int)
    requires
        0 <= i < ch.len(),
    ensures
        subtree_height(ch, i) <= subtree_size(ch, i),
    decreases ch.len() - i, 1int, 0int,
{
    lemma_max_kid_height_le(ch, i, ch[i].len() as int);
}

pub proof fn lemma_max_kid_height_le(ch: Seq<Seq<usize>>, i: int, k: int)
    requires
        0 <= i < ch.len(),
        0 <= k <= ch[i].len(),
    ensures
        max_kid_height(ch, i, k) <= preorder_kids(ch, i, k).len(),
    decreases ch.len() - i, 0int, k,
{
    if k > 0 {
        lemma_max_kid_height_le(ch, i, k - 1);
        let c = ch[i][k - 1] as int;
        if i < c < ch.len() {
            lemma_height_le_size(ch, c);
        }
    }
}

/// What a DFS stack still has to emit in pre-order: the top's subtree first.
pub open spec fn stack_pre(ch: Seq<Seq<usize>>, st: Seq<usize>) -> Seq<usize>
    decreases st.len(),
{
    if st.len() == 0 {
        seq![]
    } else {
        preorder(ch, st.last() as int) + stack_pre(ch, st.drop_last())
    }
}

/// What a DFS stack still has to contribute to a post-order, bottom first.
pub open spec fn stack_post(ch: Seq<Seq<usize>>, st: Seq<usize>) -> Seq<usize>
    decreases st.len(),
{
    if st.len() == 0 {
        seq![]
    } else {
        stack_post(ch, st.drop_last()) + postorder(ch, st.last() as int)
    }
}

/// The nodes one level below `lvl`, in order.
pub open spec fn next_level(ch: Seq<Seq<usize>>, lvl: Seq<usize>) -> Seq<usize>
    decreases lvl.len(),
{
    if lvl.len() == 0 {
        seq![]
    } else {
        (if lvl[0] < ch.len() {
            ch[lvl[0] as int]
        } else {
            seq![]
        }) + next_level(ch, lvl.drop_first())
    }
}

/// Level `lvl` followed by up to `fuel - 1` further levels below it.
pub open spec fn levels_from(ch: Seq<Seq<usize>>, lvl: Seq<usize>, fuel: nat) -> Seq<usize>
    decreases fuel,
{
    if fuel == 0 || lvl.len() == 0 {
        seq![]
    } else {
        lvl + levels_from(ch, next_level(ch, lvl), (fuel - 1) as nat)
    }
}

/// Breadth-first listing of the subtree rooted at `i`: level by level,
/// left to right within a level.
pub open spec fn bfs(ch: Seq<Seq<usize>>, i: int) -> Seq<usize> {
    levels_from(ch, seq![i as usize], ch.len() as nat)
}

/// Children of a level whose ids are at least `lo` have ids above `lo`.
pub proof fn lemma_next_level_bounds(nodes: Seq<Node>, lvl: Seq<usize>, lo: int)
    requires
        arena_links(nodes),
        forall|j: int| 0 <= j < lvl.len() ==> lo <= #[trigger] lvl[j] < nodes.len(),
    ensures
        forall|j: int|
            0 <= j < next_level(kids(nodes), lvl).len() ==> lo + 1 <= #[trigger] next_level(
                kids(nodes),
                lvl,
            )[j] < nodes.len(),
    decreases lvl.len(),
{
    let ch = kids(nodes);
    if lvl.len() > 0 {
        let rest = lvl.drop_first();
        lemma_next_level_bounds(nodes, rest, lo);
        let x = lvl[0] as int;
        let here = ch[x];
        assert(next_level(ch, lvl) == here + next_level(ch, rest));
        assert forall|j: int| 0 <= j < here.len() implies lo + 1 <= #[trigger] here[j] < nodes.len() by {
            assert(nodes[x].children@[j] == here[j]);
        }
        assert forall|j: int| 0 <= j < next_level(ch, lvl).len() implies lo + 1 <= #[trigger] next_level(
            ch,
            lvl,
        )[j] < nodes.len() by {
            if j < here.len() {
                assert(next_level(ch, lvl)[j] == here[j]);
            } else {
                assert(next_level(ch, lvl)[j] == next_level(ch, rest)[j - here.len()]);
            }
        }
    }
}

/// Every node listed by `postorder(i)` lies under `i`.
pub proof fn lemma_postorder_in_subtree(nodes: Seq<Node>, i: int)
    requires
        arena_links(nodes),
        0 <= i < nodes.len(),
    ensures
        forall|j: int|
            0 <= j < postorder(kids(nodes), i).len() ==> in_subtree(
                parents(nodes),
                i,
                #[trigger] postorder(kids(nodes), i)[j] as int,
            ),
    decreases nodes.len() - i, 1int, 0int,
{
    let ch = kids(nodes);
    let par = parents(nodes);
    let m = ch[i].len() as int;
    assert(nodes[i].id == i);
    lemma_postorder_kids_in_subtree(nodes, i, m);
    let rest = postorder_kids(ch, i, m);
    assert(postorder(ch, i) == rest + seq![i as usize]);
    assert(par.len() == nodes.len());
    assert forall|j: int| 0 <= j < postorder(ch, i).len() implies in_subtree(
        par,
        i,
        #[trigger] postorder(ch, i)[j] as int,
    ) by {
        if j < rest.len() {
            assert(postorder(ch, i)[j] == rest[j]);
        } else {
            assert(postorder(ch, i)[j] == i as usize);
            assert(in_subtree(par, i, i));
        }
    }
}

/// Every node listed by the post-orders of the first `k` children of `i`
/// lies under `i`.
pub proof fn lemma_postorder_kids_in_subtree(nodes: Seq<Node>, i: int, k: int)
    requires
        arena_links(nodes),
        0 <= i < nodes.len(),
        0 <= k <= nodes[i].children@.len(),
    ensures
        forall|j: int|
            0 <= j < postorder_kids(kids(nodes), i, k).len() ==> in_subtree(
                parents(nodes),
                i,
                #[trigger] postorder_kids(kids(nodes), i, k)[j] as int,
            ),
    decreases nodes.len() - i, 0int, k,
{
    let ch = kids(nodes);
    let par = parents(nodes);
    if k > 0 {
        lemma_postorder_kids_in_subtree(nodes, i, k - 1);
        let c = ch[i][k - 1] as int;
        assert(nodes[i].children@[k - 1] == c);
        assert(i < c < nodes.len());
        lemma_postorder_in_subtree(nodes, c);
        let left = postorder_kids(ch, i, k - 1);
        let right = postorder(ch, c);
        assert(postorder_kids(ch, i, k) == left + right);
        assert(par[c] == nodes[c].parent);
        assert forall|j: int| 0 <= j < (left + right).len() implies in_subtree(
            par,
            i,
            #[trigger] (left + right)[j] as int,
        ) by {
            if j < left.len() {
                assert((left + right)[j] == left[j]);
            } else {
                assert((left + right)[j] == right[j - left.len()]);
                lemma_in_subtree_lift(par, i, c, right[j - left.len()] as int);
            }
        }
    }
}

/// Every child is lower than the tallest of the first `k` children it is among.
pub proof fn lemma_kid_height_le(ch: Seq<Seq<usize>>, i: int, k: int, j: int)
    requires
        0 <= i < ch.len(),
        0 <= j < k <= ch[i].len(),
        i < ch[i][j] < ch.len(),
    ensures
        subtree_height(ch, ch[i][j] as int) <= max_kid_height(ch, i, k),
    decreases k,
{
    if j < k - 1 {
        lemma_kid_height_le(ch, i, k - 1, j);
    }
}

/// In a finished tree, a child under the root is strictly lower than its
/// parent.
pub proof fn lemma_child_lower(nodes: Seq<Node>, root: int, i: int, j: int)
    requires
        arena_wf(nodes, root),
        in_subtree(parents(nodes), root, i),
        0 <= j < nodes[i].children@.len(),
    ensures
        in_subtree(parents(nodes), root, nodes[i].children@[j] as int),
        nodes[nodes[i].children@[j] as int].height < nodes[i].height,
        nodes[nodes[i].children@[j] as int].height == subtree_height(kids(nodes), nodes[i].children@[j] as int),
{
    let par = parents(nodes);
    let ch = kids(nodes);
    lemma_in_subtree_ge(par, root, i);
    let c = nodes[i].children@[j] as int;
    assert(i < c < nodes.len());
    assert(par[c] == nodes[c].parent);
    assert(in_subtree(par, root, c));
    assert(metadata_ok(nodes, i));
    assert(metadata_ok(nodes, c));
    assert(ch[i] == nodes[i].children@);
    lemma_kid_height_le(ch, i, ch[i].len() as int, j);
}

/// A node strictly below `i` lies under one of `i`'s children; returns the
/// index of that child.
pub proof fn lemma_under_some_child(nodes: Seq<Node>, i: int, y: int) -> (k: int)
    requires
        arena_links(nodes),
        nodes.len() <= usize::MAX,
        in_subtree(parents(nodes), i, y),
        y != i,
    ensures
        0 <= k < nodes[i].children@.len(),
        in_subtree(parents(nodes), nodes[i].children@[k] as int, y),
    decreases y,
{
    let par = parents(nodes);
    lemma_in_subtree_ge(par, i, y);
    let p = par[y].unwrap() as int;
    assert(nodes[y].parent == par[y]);
    if p == i {
        assert(nodes[i].children@.contains(y as usize));
        let k = nodes[i].children@.index_of(y as usize);
        assert(nodes[i].children@[k] == y as usize);
        assert(in_subtree(par, y, y));
        k
    } else {
        let k = lemma_under_some_child(nodes, i, p);
        let c = nodes[i].children@[k] as int;
        lemma_in_subtree_ge(par, c, p);
        assert(in_subtree(par, c, y));
        k
    }
}

/// Children are listed once each, so a child's index is where it sits.
pub proof fn lemma_child_index(nodes: Seq<Node>, p: int, k: int)
    requires
        arena_links(nodes),
        0 <= p < nodes.len(),
        0 <= k < nodes[p].children@.len(),
    ensures
        nodes[p].children@.index_of(nodes[p].children@[k]) == k,
{
    let s = nodes[p].children@;
    let x = s[k];
    assert(s.contains(x));
    let j = s.index_of(x);
    assert(0 <= j < s.len() && s[j] == x);
    if j < k {
        assert(s[j] < s[k]);
    } else if j > k {
        assert(s[k] < s[j]);
    }
}

/// The level below a level of nodes under `r` is again under `r`.
pub proof fn lemma_next_level_in_subtree(nodes: Seq<Node>, lvl: Seq<usize>, r: int)
    requires
        arena_links(nodes),
        forall|j: int| 0 <= j < lvl.len() ==> in_subtree(parents(nodes), r, #[trigger] lvl[j] as int),
    ensures
        forall|j: int|
            0 <= j < next_level(kids(nodes), lvl).len() ==> in_subtree(
                parents(nodes),
                r,
                #[trigger] next_level(kids(nodes), lvl)[j] as int,
            ),
    decreases lvl.len(),
{
    let ch = kids(nodes);
    let par = parents(nodes);
    if lvl.len() > 0 {
        let rest = lvl.drop_first();
        assert forall|j: int| 0 <= j < rest.len() implies in_subtree(par, r, #[trigger] rest[j] as int) by {
            assert(rest[j] == lvl[j + 1]);
        }
        lemma_next_level_in_subtree(nodes, rest, r);
        let x = lvl[0] as int;
        assert(in_subtree(par, r, x));
        lemma_in_subtree_ge(par, r, x);
        let here = ch[x];
        assert(next_level(ch, lvl) == here + next_level(ch, rest));
        assert forall|j: int| 0 <= j < here.len() implies in_subtree(par, r, #[trigger] here[j] as int) by {
            assert(nodes[x].children@[j] == here[j]);
            let c = here[j] as int;
            assert(x < c < nodes.len());
            assert(par[c] == nodes[c].parent);
            lemma_in_subtree_ge(par, r, x);
        }
        assert forall|j: int| 0 <= j < next_level(ch, lvl).len() implies in_subtree(
            par,
            r,
            #[trigger] next_level(ch, lvl)[j] as int,
        ) by {
            if j < here.len() {
                assert(next_level(ch, lvl)[j] == here[j]);
            } else {
                assert(next_level(ch, lvl)[j] == next_level(ch, rest)[j - here.len()]);
            }
        }
    }
}

/// Every node listed level by level from nodes under `r` is under `r`.
pub proof fn lemma_levels_in_subtree(nodes: Seq<Node>, lvl: Seq<usize>, fuel: nat, r: int)
    requires
        arena_links(nodes),
        forall|j: int| 0 <= j < lvl.len() ==> in_subtree(parents(nodes), r, #[trigger] lvl[j] as int),
    ensures
        forall|j: int|
            0 <= j < levels_from(kids(nodes), lvl, fuel).len() ==> in_subtree(
                parents(nodes),
                r,
                #[trigger] levels_from(kids(nodes), lvl, fuel)[j] as int,
            ),
    decreases fuel,
{
    let ch = kids(nodes);
    if fuel > 0 && lvl.len() > 0 {
        let nxt = next_level(ch, lvl);
        lemma_next_level_in_subtree(nodes, lvl, r);
        lemma_levels_in_subtree(nodes, nxt, (fuel - 1) as nat, r);
        let tail = levels_from(ch, nxt, (fuel - 1) as nat);
        assert(levels_from(ch, lvl, fuel) == lvl + tail);
        assert forall|j: int| 0 <= j < (lvl + tail).len() implies in_subtree(
            parents(nodes),
            r,
            #[trigger] (lvl + tail)[j] as int,
        ) by {
            if j < lvl.len() {
                assert((lvl + tail)[j] == lvl[j]);
            } else {
                assert((lvl + tail)[j] == tail[j - lvl.len()]);
            }
        }
    }
}

/// Being under a node composes: under `b`, itself under `a`, is under `a`.
pub proof fn lemma_in_subtree_trans(par: Seq<Option<usize>>, a: int, b: int, x: int)
    requires
        in_subtree(par, a, b),
        in_subtree(par, b, x),
    ensures
        in_subtree(par, a, x),
    decreases x,
{
    if x != b {
        let p = par[x].unwrap() as int;
        lemma_in_subtree_trans(par, a, b, p);
    }
}

/// The pre-orders of the first `m` children of `i` list everything the
/// pre-order of child `k < m` lists.
proof fn lemma_preorder_kids_contains(nodes: Seq<Node>, i: int, m: int, k: int, x: usize)
    requires
        arena_links(nodes),
        0 <= i < nodes.len(),
        0 <= k < m <= nodes[i].children@.len(),
        preorder(kids(nodes), nodes[i].children@[k] as int).contains(x),
    ensures
        preorder_kids(kids(nodes), i, m).contains(x),
    decreases m,
{
    let ch = kids(nodes);
    let c = ch[i][m - 1] as int;
    assert(ch[i] == nodes[i].children@);
    assert(i < c < nodes.len());
    let prev = preorder_kids(ch, i, m - 1);
    assert(preorder_kids(ch, i, m) == prev + preorder(ch, c));
    if k == m - 1 {
        let j = choose|j: int| 0 <= j < preorder(ch, c).len() && preorder(ch, c)[j] == x;
        assert((prev + preorder(ch, c))[prev.len() + j] == x);
    } else {
        lemma_preorder_kids_contains(nodes, i, m - 1, k, x);
        let j = choose|j: int| 0 <= j < prev.len() && prev[j] == x;
        assert((prev + preorder(ch, c))[j] == x);
    }
}

/// A pre-order from `i` lists every node under `i`.
pub proof fn lemma_preorder_complete(nodes: Seq<Node>, i: int, x: int)
    requires
        arena_links(nodes),
        nodes.len() <= usize::MAX,
        0 <= i < nodes.len(),
        in_subtree(parents(nodes), i, x),
    ensures
        preorder(kids(nodes), i).contains(x as usize),
    decreases nodes.len() - i,
{
    let ch = kids(nodes);
    lemma_in_subtree_ge(parents(nodes), i, x);
    if x == i {
        assert(preorder(ch, i)[0] == i as usize);
    } else {
        let k = lemma_under_some_child(nodes, i, x);
        let c = nodes[i].children@[k] as int;
        assert(i < c < nodes.len());
        lemma_preorder_complete(nodes, c, x);
        let m = nodes[i].children@.len() as int;
        lemma_preorder_kids_contains(nodes, i, m, k, x as usize);
        let rest = preorder_kids(ch, i, m);
        assert(ch[i] == nodes[i].children@);
        assert(preorder(ch, i) == seq![i as usize] + rest);
        let j = choose|j: int| 0 <= j < rest.len() && rest[j] == x as usize;
        assert((seq![i as usize] + rest)[1 + j] == x as usize);
    }
}

/// The level `k` steps below `lvl`.
pub open spec fn level_below(ch: Seq<Seq<usize>>, lvl: Seq<usize>, k: nat) -> Seq<usize>
    decreases k,
{
    if k == 0 {
        lvl
    } else {
        level_below(ch, next_level(ch, lvl), (k - 1) as nat)
    }
}

/// A child of a listed node is listed on the next level.
proof fn lemma_next_level_contains(ch: Seq<Seq<usize>>, lvl: Seq<usize>, j: int, c: usize)
    requires
        0 <= j < lvl.len(),
        lvl[j] < ch.len(),
        ch[lvl[j] as int].contains(c),
    ensures
        next_level(ch, lvl).contains(c),
    decreases lvl.len(),
{
    let here = if lvl[0] < ch.len() {
        ch[lvl[0] as int]
    } else {
        seq![]
    };
    let rest = next_level(ch, lvl.drop_first());
    assert(next_level(ch, lvl) == here + rest);
    if j == 0 {
        let q = choose|q: int| 0 <= q < here.len() && here[q] == c;
        assert((here + rest)[q] == c);
    } else {
        lemma_next_level_contains(ch, lvl.drop_first(), j - 1, c);
        let q = choose|q: int| 0 <= q < rest.len() && rest[q] == c;
        assert((here + rest)[here.len() + q] == c);
    }
}

/// Nothing lies below an empty level.
proof fn lemma_level_below_empty(ch: Seq<Seq<usize>>, k: nat)
    ensures
        level_below(ch, seq![], k).len() == 0,
    decreases k,
{
    if k > 0 {
        assert(next_level(ch, seq![]) =~= Seq::<usize>::empty());
        lemma_level_below_empty(ch, (k - 1) as nat);
    }
}

/// One more level down is the next level of the level above.
proof fn lemma_level_below_step(ch: Seq<Seq<usize>>, lvl: Seq<usize>, k: nat)
    ensures
        level_below(ch, lvl, k + 1) == next_level(ch, level_below(ch, lvl, k)),
    decreases k,
{
    assert(level_below(ch, lvl, k + 1) == level_below(ch, next_level(ch, lvl), k));
    if k > 0 {
        lemma_level_below_step(ch, next_level(ch, lvl), (k - 1) as nat);
        assert(level_below(ch, lvl, k) == level_below(ch, next_level(ch, lvl), (k - 1) as nat));
        assert(level_below(ch, next_level(ch, lvl), k) == level_below(ch, next_level(ch, lvl), ((k - 1) + 1) as nat));
    } else {
        assert(level_below(ch, next_level(ch, lvl), 0) == next_level(ch, lvl));
    }
}

/// Levels within the fuel are listed.
proof fn lemma_levels_from_contains(ch: Seq<Seq<usize>>, lvl: Seq<usize>, fuel: nat, k: nat, x: usize)
    requires
        k < fuel,
        level_below(ch, lvl, k).contains(x),
    ensures
        levels_from(ch, lvl, fuel).contains(x),
    decreases k,
{
    if lvl.len() == 0 {
        lemma_level_below_empty(ch, k);
        assert(lvl =~= Seq::<usize>::empty());
    } else {
        let tail = levels_from(ch, next_level(ch, lvl), (fuel - 1) as nat);
        assert(levels_from(ch, lvl, fuel) == lvl + tail);
        if k == 0 {
            let q = choose|q: int| 0 <= q < lvl.len() && lvl[q] == x;
            assert((lvl + tail)[q] == x);
        } else {
            lemma_levels_from_contains(ch, next_level(ch, lvl), (fuel - 1) as nat, (k - 1) as nat, x);
            let q = choose|q: int| 0 <= q < tail.len() && tail[q] == x;
            assert((lvl + tail)[lvl.len() + q] == x);
        }
    }
}

/// A node under `r` sits on some level below `r`, no deeper than the
/// distance between their ids.
proof fn lemma_on_some_level(nodes: Seq<Node>, r: int, x: int) -> (k: nat)
    requires
        arena_links(nodes),
        0 <= r < nodes.len(),
        in_subtree(parents(nodes), r, x),
    ensures
        k <= x - r,
        level_below(kids(nodes), seq![r as usize], k).contains(x as usize),
    decreases x,
{
    let par = parents(nodes);
    let ch = kids(nodes);
    lemma_in_subtree_ge(par, r, x);
    if x == r {
        assert(seq![r as usize][0] == r as usize);
        0
    } else {
        let p = par[x].unwrap() as int;
        assert(nodes[x].parent == par[x]);
        let k = lemma_on_some_level(nodes, r, p);
        let lvl = level_below(ch, seq![r as usize], k);
        let j = choose|j: int| 0 <= j < lvl.len() && lvl[j] == p as usize;
        assert(nodes[p].children@.contains(x as usize));
        assert(ch[p] == nodes[p].children@);
        lemma_next_level_contains(ch, lvl, j, x as usize);
        lemma_level_below_step(ch, seq![r as usize], k);
        k + 1
    }
}

/// A breadth-first listing from `r` lists every node under `r`.
pub proof fn lemma_bfs_complete(nodes: Seq<Node>, r: int, x: int)
    requires
        arena_links(nodes),
        0 <= r < nodes.len(),
        in_subtree(parents(nodes), r, x),
    ensures
        bfs(kids(nodes), r).contains(x as usize),
{
    let k = lemma_on_some_level(nodes, r, x);
    lemma_in_subtree_ge(parents(nodes), r, x);
    lemma_levels_from_contains(kids(nodes), seq![r as usize], nodes.len() as nat, k, x as usize);
}

/// How many parent links lead up from `x` to `r` (zero for `r` itself).
pub open spec fn depth_below(par: Seq<Option<usize>>, r: int, x: int) -> nat
    decreases x,
{
    if x == r || x < 0 || x >= par.len() {
        0
    } else {
        match par[x] {
            Some(p) => if 0 <= p < x {
                1 + depth_below(par, r, p as int)
            } else {
                0
            },
            None => 0,
        }
    }
}

/// Every node of the next level hangs from a node of the level.
proof fn lemma_next_level_parent(nodes: Seq<Node>, lvl: Seq<usize>, j: int)
    requires
        arena_links(nodes),
        forall|i: int| 0 <= i < lvl.len() ==> #[trigger] lvl[i] < nodes.len(),
        0 <= j < next_level(kids(nodes), lvl).len(),
    ensures
        exists|i: int|
            0 <= i < lvl.len() && nodes[next_level(kids(nodes), lvl)[j] as int].parent == Some(#[trigger] lvl[i])
                && lvl[i] < next_level(kids(nodes), lvl)[j] < nodes.len(),
    decreases lvl.len(),
{
    let ch = kids(nodes);
    let rest = lvl.drop_first();
    let here = ch[lvl[0] as int];
    assert(next_level(ch, lvl) == here + next_level(ch, rest));
    if j < here.len() {
        assert(next_level(ch, lvl)[j] == nodes[lvl[0] as int].children@[j]);
        assert(lvl[0] == lvl[0]);
    } else {
        assert forall|i: int| 0 <= i < rest.len() implies #[trigger] rest[i] < nodes.len() by {
            assert(rest[i] == lvl[i + 1]);
        }
        lemma_next_level_parent(nodes, rest, j - here.len());
        assert(next_level(ch, lvl)[j] == next_level(ch, rest)[j - here.len()]);
        let i = choose|i: int|
            0 <= i < rest.len() && nodes[next_level(ch, rest)[j - here.len()] as int].parent == Some(#[trigger] rest[i])
                && rest[i] < next_level(ch, rest)[j - here.len()] < nodes.len();
        assert(rest[i] == lvl[i + 1]);
    }
}

/// A level without repeats has a next level without repeats.
proof fn lemma_next_level_distinct(nodes: Seq<Node>, lvl: Seq<usize>)
    requires
        arena_links(nodes),
        lvl.no_duplicates(),
        forall|i: int| 0 <= i < lvl.len() ==> #[trigger] lvl[i] < nodes.len(),
    ensures
        next_level(kids(nodes), lvl).no_duplicates(),
    decreases lvl.len(),
{
    let ch = kids(nodes);
    if lvl.len() > 0 {
        let rest = lvl.drop_first();
        let here = ch[lvl[0] as int];
        assert forall|i: int| 0 <= i < rest.len() implies #[trigger] rest[i] < nodes.len() by {
            assert(rest[i] == lvl[i + 1]);
        }
        assert(rest.no_duplicates()) by {
            assert forall|a: int, b: int| 0 <= a < rest.len() && 0 <= b < rest.len() && a != b implies rest[a] != rest[b] by {
                assert(rest[a] == lvl[a + 1] && rest[b] == lvl[b + 1]);
            }
        }
        lemma_next_level_distinct(nodes, rest);
        let tail = next_level(ch, rest);
        let all = next_level(ch, lvl);
        assert(all == here + tail);
        assert forall|a: int, b: int| 0 <= a < all.len() && 0 <= b < all.len() && a != b implies all[a] != all[b] by {
            if a < here.len() && b < here.len() {
                assert(all[a] == nodes[lvl[0] as int].children@[a]);
                assert(all[b] == nodes[lvl[0] as int].children@[b]);
            } else if a >= here.len() && b >= here.len() {
                assert(all[a] == tail[a - here.len()] && all[b] == tail[b - here.len()]);
            } else {
                let (h, t) = if a < here.len() {
                    (a, b - here.len())
                } else {
                    (b, a - here.len())
                };
                assert(all[if a < here.len() { a } else { b }] == nodes[lvl[0] as int].children@[h]);
                lemma_next_level_parent(nodes, rest, t);
                let i = choose|i: int|
                    0 <= i < rest.len() && nodes[tail[t] as int].parent == Some(#[trigger] rest[i]) && rest[i] < tail[t]
                        < nodes.len();
                assert(rest[i] == lvl[i + 1]);
                assert(nodes[nodes[lvl[0] as int].children@[h] as int].parent == Some(lvl[0]));
            }
        }
    }
}

/// The levels below a level of distinct nodes at one depth hold distinct
/// nodes, all at that depth or deeper.
proof fn lemma_levels_distinct(nodes: Seq<Node>, lvl: Seq<usize>, fuel: nat, r: int, k: nat)
    requires
        arena_links(nodes),
        0 <= r < nodes.len(),
        lvl.no_duplicates(),
        forall|i: int|
            0 <= i < lvl.len() ==> in_subtree(parents(nodes), r, #[trigger] lvl[i] as int) && depth_below(
                parents(nodes),
                r,
                lvl[i] as int,
            ) == k,
    ensures
        levels_from(kids(nodes), lvl, fuel).no_duplicates(),
        forall|j: int|
            0 <= j < levels_from(kids(nodes), lvl, fuel).len() ==> depth_below(
                parents(nodes),
                r,
                #[trigger] levels_from(kids(nodes), lvl, fuel)[j] as int,
            ) >= k,
    decreases fuel,
{
    let ch = kids(nodes);
    let par = parents(nodes);
    if fuel > 0 && lvl.len() > 0 {
        let next = next_level(ch, lvl);
        assert forall|i: int| 0 <= i < lvl.len() implies #[trigger] lvl[i] < nodes.len() by {
            lemma_in_subtree_ge(par, r, lvl[i] as int);
        }
        lemma_next_level_distinct(nodes, lvl);
        lemma_next_level_in_subtree(nodes, lvl, r);
        assert forall|i: int| 0 <= i < next.len() implies in_subtree(par, r, #[trigger] next[i] as int) && depth_below(
            par,
            r,
            next[i] as int,
        ) == k + 1 by {
            lemma_next_level_parent(nodes, lvl, i);
            let q = choose|q: int| 0 <= q < lvl.len() && nodes[next[i] as int].parent == Some(#[trigger] lvl[q]) && lvl[q] < next[i] < nodes.len();
            lemma_in_subtree_ge(par, r, lvl[q] as int);
            assert(par[next[i] as int] == nodes[next[i] as int].parent);
        }
        lemma_levels_distinct(nodes, next, (fuel - 1) as nat, r, k + 1);
        let tail = levels_from(ch, next, (fuel - 1) as nat);
        let all = levels_from(ch, lvl, fuel);
        assert(all == lvl + tail);
        assert forall|a: int, b: int| 0 <= a < all.len() && 0 <= b < all.len() && a != b implies all[a] != all[b] by {
            if a < lvl.len() && b < lvl.len() {
            } else if a >= lvl.len() && b >= lvl.len() {
                assert(all[a] == tail[a - lvl.len()] && all[b] == tail[b - lvl.len()]);
            } else if a < lvl.len() {
                assert(all[b] == tail[b - lvl.len()]);
                assert(depth_below(par, r, tail[b - lvl.len()] as int) >= k + 1);
            } else {
                assert(all[a] == tail[a - lvl.len()]);
                assert(depth_below(par, r, tail[a - lvl.len()] as int) >= k + 1);
            }
        }
        assert forall|j: int| 0 <= j < all.len() implies depth_below(par, r, #[trigger] all[j] as int) >= k by {
            if j >= lvl.len() {
                assert(all[j] == tail[j - lvl.len()]);
            }
        }
    }
}

/// A breadth-first listing holds each node once.
pub proof fn lemma_bfs_distinct(nodes: Seq<Node>, r: int)
    requires
        arena_links(nodes),
        0 <= r < nodes.len(),
        nodes.len() <= usize::MAX,
    ensures
        bfs(kids(nodes), r).no_duplicates(),
{
    let lvl = seq![r as usize];
    assert(parents(nodes).len() == nodes.len());
    assert(in_subtree(parents(nodes), r, r));
    assert(lvl[0] == r as usize);
    lemma_levels_distinct(nodes, lvl, kids(nodes).len() as nat, r, 0);
}

/// Two strictly increasing lists with the same members are equal.
pub proof fn lemma_sorted_same_members(a: Seq<usize>, b: Seq<usize>)
    requires
        forall|i: int, j: int| 0 <= i < j < a.len() ==> #[trigger] a[i] < #[trigger] a[j],
        forall|i: int, j: int| 0 <= i < j < b.len() ==> #[trigger] b[i] < #[trigger] b[j],
        forall|x: usize| a.contains(x) <==> b.contains(x),
    ensures
        a == b,
    decreases a.len() + b.len(),
{
    if a.len() == 0 {
        if b.len() > 0 {
            assert(b.contains(b[0]));
        }
        assert(a =~= b);
    } else if b.len() == 0 {
        assert(a.contains(a[0]));
    } else {
        assert(a.contains(a[0]));
        assert(b.contains(b[0]));
        let i = choose|i: int| 0 <= i < a.len() && a[i] == b[0];
        let j = choose|j: int| 0 <= j < b.len() && b[j] == a[0];
        if i > 0 {
            assert(a[0] < a[i]);
        }
        if j > 0 {
            assert(b[0] < b[j]);
        }
        assert(a[0] == b[0]);
        let ta = a.drop_first();
        let tb = b.drop_first();
        assert forall|x: usize| ta.contains(x) <==> tb.contains(x) by {
            if ta.contains(x) {
                let k = choose|k: int| 0 <= k < ta.len() && ta[k] == x;
                assert(a[k + 1] == x);
                assert(a[0] < a[k + 1]);
                assert(a.contains(x));
                let q = choose|q: int| 0 <= q < b.len() && b[q] == x;
                assert(q != 0);
                assert(tb[q - 1] == x);
            }
            if tb.contains(x) {
                let k = choose|k: int| 0 <= k < tb.len() && tb[k] == x;
                assert(b[k + 1] == x);
                assert(b[0] < b[k + 1]);
                assert(b.contains(x));
                let q = choose|q: int| 0 <= q < a.len() && a[q] == x;
                assert(q != 0);
                assert(ta[q - 1] == x);
            }
        }
        assert forall|i: int, j: int| 0 <= i < j < ta.len() implies #[trigger] ta[i] < #[trigger] ta[j] by {
            assert(a[i + 1] < a[j + 1]);
        }
        assert forall|i: int, j: int| 0 <= i < j < tb.len() implies #[trigger] tb[i] < #[trigger] tb[j] by {
            assert(b[i + 1] < b[j + 1]);
        }
        lemma_sorted_same_members(ta, tb);
        assert(a =~= seq![a[0]] + ta);
        assert(b =~= seq![b[0]] + tb);
    }
}

/// Children follow from parents: two arenas whose nodes have the same
/// parents list the same children.
pub proof fn lemma_children_from_parents(a: Seq<Node>, b: Seq<Node>, i: int)
    requires
        arena_links(a),
        arena_links(b),
        a.len() == b.len(),
        forall|k: int| 0 <= k < a.len() ==> #[trigger] a[k].parent == b[k].parent,
        0 <= i < a.len(),
    ensures
        a[i].children@ == b[i].children@,
{
    let ca = a[i].children@;
    let cb = b[i].children@;
    assert forall|x: usize| ca.contains(x) <==> cb.contains(x) by {
        if ca.contains(x) {
            let k = choose|k: int| 0 <= k < ca.len() && ca[k] == x;
            assert(a[x as int].parent == Some(i as usize));
            assert(b[x as int].parent == Some(i as usize));
        }
        if cb.contains(x) {
            let k = choose|k: int| 0 <= k < cb.len() && cb[k] == x;
            assert(b[x as int].parent == Some(i as usize));
            assert(a[x as int].parent == Some(i as usize));
        }
    }
    lemma_sorted_same_members(ca, cb);
}

/// A breadth-first listing from `r` only lists nodes under `r`.
pub proof fn lemma_bfs_in_subtree(nodes: Seq<Node>, r: int)
    requires
        arena_links(nodes),
        nodes.len() <= usize::MAX,
        0 <= r < nodes.len(),
    ensures
        forall|j: int|
            0 <= j < bfs(kids(nodes), r).len() ==> in_subtree(
                parents(nodes),
                r,
                #[trigger] bfs(kids(nodes), r)[j] as int,
            ),
{
    let lvl = seq![r as usize];
    assert(parents(nodes).len() == nodes.len());
    assert(in_subtree(parents(nodes), r, r));
    assert forall|j: int| 0 <= j < lvl.len() implies in_subtree(parents(nodes), r, #[trigger] lvl[j] as int) by {
        assert(lvl[j] == r);
    }
    lemma_levels_in_subtree(nodes, lvl, kids(nodes).len() as nat, r);
}

/// Two arenas that differ at most in cached metadata.
pub open spec fn same_structure(a: Seq<Node>, b: Seq<Node>) -> bool {
    &&& a.len() == b.len()
    &&& forall|i: int|
        #![trigger a[i]]
        #![trigger b[i]]
        0 <= i < a.len() ==> {
            &&& a[i].id == b[i].id
            &&& a[i].kind == b[i].kind
            &&& a[i].label == b[i].label
            &&& a[i].start_byte == b[i].start_byte
            &&& a[i].end_byte == b[i].end_byte
            &&& a[i].parent == b[i].parent
            &&& a[i].children == b[i].children
        }
}

pub proof fn lemma_same_structure(a: Seq<Node>, b: Seq<Node>)
    requires
        same_structure(a, b),
    ensures
        kids(a) == kids(b),
        parents(a) == parents(b),
        shapes(a) == shapes(b),
        arena_links(a) == arena_links(b),
{
    assert(kids(a) =~= kids(b));
    assert(parents(a) =~= parents(b));
    assert(shapes(a) =~= shapes(b));
    if arena_links(a) {
        assert forall|i: int| 0 <= i < b.len() implies match #[trigger] b[i].parent {
            Some(p) => p < i && b[p as int].children@.contains(i as usize),
            None => true,
        } by {
            assert(a[i].parent == b[i].parent);
            if let Some(p) = b[i].parent {
                assert(a[p as int].children == b[p as int].children);
            }
        }
        assert forall|i: int, k: int|
            0 <= i < b.len() && 0 <= k < b[i].children@.len() implies {
            let c = #[trigger] b[i].children@[k];
            &&& i < c < b.len()
            &&& b[c as int].parent == Some(i as usize)
        } by {
            assert(a[i].children == b[i].children);
            let c = b[i].children@[k];
            assert(a[i].children@[k] == c);
            assert(a[c as int].parent == b[c as int].parent);
        }
        assert forall|i: int, k1: int, k2: int|
            0 <= i < b.len() && 0 <= k1 < k2 < b[i].children@.len() implies #[trigger] b[i].children@[k1]
            < #[trigger] b[i].children@[k2] by {
            assert(a[i].children == b[i].children);
            assert(a[i].children@[k1] < a[i].children@[k2]);
        }
    }
    if arena_links(b) {
        assert forall|i: int| 0 <= i < a.len() implies match #[trigger] a[i].parent {
            Some(p) => p < i && a[p as int].children@.contains(i as usize),
            None => true,
        } by {
            assert(a[i].parent == b[i].parent);
            if let Some(p) = a[i].parent {
                assert(a[p as int].children == b[p as int].children);
            }
        }
        assert forall|i: int, k: int|
            0 <= i < a.len() && 0 <= k < a[i].children@.len() implies {
            let c = #[trigger] a[i].children@[k];
            &&& i < c < a.len()
            &&& a[c as int].parent == Some(i as usize)
        } by {
            assert(a[i].children == b[i].children);
            let c = a[i].children@[k];
            assert(b[i].children@[k] == c);
            assert(a[c as int].parent == b[c as int].parent);
        }
        assert forall|i: int, k1: int, k2: int|
            0 <= i < a.len() && 0 <= k1 < k2 < a[i].children@.len() implies #[trigger] a[i].children@[k1]
            < #[trigger] a[i].children@[k2] by {
            assert(a[i].children == b[i].children);
            assert(b[i].children@[k1] < b[i].children@[k2]);
        }
    }
}

/// A builder's arena: linked, with no metadata computed yet.
pub open spec fn builder_wf(nodes: Seq<Node>) -> bool {
    &&& arena_links(nodes)
    &&& forall|i: int| 0 <= i < nodes.len() ==> #[trigger] metadata_blank(nodes, i)
}

/// The little-endian bytes of a `u64`, as the structural hash feeds them.
fn le_bytes_vec(h: u64) -> (v: Vec<u8>)
    ensures
        v@ == le_bytes(h),
{
    let mut v: Vec<u8> = Vec::with_capacity(8);
    v.push(h as u8);
    v.push((h >> 8u64) as u8);
    v.push((h >> 16u64) as u8);
    v.push((h >> 24u64) as u8);
    v.push((h >> 32u64) as u8);
    v.push((h >> 40u64) as u8);
    v.push((h >> 48u64) as u8);
    v.push((h >> 56u64) as u8);
    assert(v@ =~= le_bytes(h));
    v
}

/// An immutable arena-backed tree.
#[derive(Debug, Clone)]
pub struct Tree {
    nodes: Vec<Node>,
    root: NodeId,
}

impl Tree {
    /// The arena of the tree.
    pub closed spec fn arena(&self) -> Seq<Node> {
        self.nodes@
    }

    /// The root id of the tree.
    pub closed spec fn root_id(&self) -> int {
        self.root as int
    }

    /// Well-formedness of a tree.
    pub open spec fn wf(&self) -> bool {
        arena_wf(self.arena(), self.root_id())
    }

    /// Every label's UTF-8 encoding is shorter than `usize::MAX` bytes.
    pub open spec fn labels_fit(&self) -> bool {
        forall|i: int|
            0 <= i < self.arena().len() ==> #[trigger] vstd::utf8::encode_utf8(self.arena()[i].label@).len()
                < usize::MAX
    }

    /// Every node of the arena lies under the root.
    pub open spec fn connected(&self) -> bool {
        forall|i: int| 0 <= i < self.arena().len() ==> #[trigger] in_subtree(parents(self.arena()), self.root_id(), i)
    }

    /// Returns the root node's id.
    pub fn root(&self) -> (r: NodeId)
        ensures
            r == self.root_id(),
    {
        self.root
    }

    /// Returns a reference to the node with the given id.
    pub fn node(&self, id: NodeId) -> (n: &Node)
        requires
            id < self.arena().len(),
        ensures
            *n == self.arena()[id as int],
    {
        &self.nodes[id]
    }

    /// Returns the total number of nodes in the tree.
    pub fn node_count(&self) -> (n: usize)
        ensures
            n == self.arena().len(),
    {
        self.nodes.len()
    }

    /// Pushes the children of `id` so that the leftmost one ends on top.
    fn push_children_rev(&self, id: NodeId, stack: &mut Vec<NodeId>)
        requires
            self.wf(),
            id < self.arena().len(),
            forall|j: int| 0 <= j < old(stack)@.len() ==> old(stack)@[j] < self.arena().len(),
        ensures
            stack_pre(kids(self.arena()), final(stack)@) == preorder_kids(
                kids(self.arena()),
                id as int,
                self.arena()[id as int].children@.len() as int,
            ) + stack_pre(kids(self.arena()), old(stack)@),
            forall|j: int| 0 <= j < final(stack)@.len() ==> final(stack)@[j] < self.arena().len(),
            old(stack)@.is_prefix_of(final(stack)@),
    {
        let ghost ch = kids(self.nodes@);
        let ghost start = stack@;
        let m: usize = self.nodes[id].children.len();
        let mut k: usize = m;
        while k > 0
            invariant
                self.wf(),
                ch == kids(self.nodes@),
                id < self.nodes@.len(),
                m == self.nodes@[id as int].children@.len(),
                k <= m,
                preorder_kids(ch, id as int, k as int) + stack_pre(ch, stack@) == preorder_kids(
                    ch,
                    id as int,
                    m as int,
                ) + stack_pre(ch, start),
                forall|j: int| 0 <= j < stack@.len() ==> stack@[j] < self.nodes@.len(),
                start.is_prefix_of(stack@),
            decreases k,
        {
            k -= 1;
            let c = self.nodes[id].children[k];
            assert(self.nodes@[id as int].children@[k as int] == c);
            let ghost before = stack@;
            stack.push(c);
            assert(stack@.drop_last() =~= before);
            assert(stack_pre(ch, stack@) == preorder(ch, c as int) + stack_pre(ch, before));
            assert(preorder_kids(ch, id as int, k + 1) == preorder_kids(ch, id as int, k as int)
                + preorder(ch, c as int));
            assert(preorder_kids(ch, id as int, k as int) + stack_pre(ch, stack@) =~= preorder_kids(
                ch,
                id as int,
                k + 1,
            ) + stack_pre(ch, before));
        }
    }

    /// Pre-order traversal starting at `start` (root before children).
    pub fn pre_order(&self, start: NodeId) -> (r: Vec<NodeId>)
        requires
            self.wf(),
            start < self.arena().len(),
        ensures
            r@ == preorder(kids(self.arena()), start as int),
    {
        let ghost ch = kids(self.nodes@);
        let mut result: Vec<NodeId> = Vec::with_capacity(self.nodes[start].size);
        let mut stack: Vec<NodeId> = Vec::new();
        stack.push(start);
        assert(stack@.drop_last() =~= Seq::<usize>::empty());
        assert(stack@.last() == start);
        assert(stack_pre(ch, Seq::<usize>::empty()) == Seq::<usize>::empty());
        assert(stack_pre(ch, stack@) =~= preorder(ch, start as int));
        while stack.len() > 0
            invariant
                self.wf(),
                ch == kids(self.nodes@),
                forall|j: int| 0 <= j < stack@.len() ==> stack@[j] < self.nodes@.len(),
                result@ + stack_pre(ch, stack@) == preorder(ch, start as int),
            decreases stack_pre(ch, stack@).len(),
        {
            let ghost before = stack@;
            let id = stack.pop().unwrap();
            assert(before.drop_last() =~= stack@);
            let ghost rest = stack@;
            let ghost res0 = result@;
            result.push(id);
            self.push_children_rev(id, &mut stack);
            let ghost m = self.nodes@[id as int].children@.len() as int;
            assert(preorder(ch, id as int) == seq![id] + preorder_kids(ch, id as int, m));
            assert(result@ + stack_pre(ch, stack@) =~= res0 + (preorder(ch, id as int) + stack_pre(ch, rest)));
        }
        assert(result@ =~= result@ + stack_pre(ch, stack@));
        result
    }

    /// Pushes the children of `id` in order, so that the rightmost ends on top.
    fn push_children_fwd(&self, id: NodeId, stack: &mut Vec<NodeId>)
        requires
            self.wf(),
            id < self.arena().len(),
            forall|j: int| 0 <= j < old(stack)@.len() ==> old(stack)@[j] < self.arena().len(),
        ensures
            stack_post(kids(self.arena()), final(stack)@) == stack_post(
                kids(self.arena()),
                old(stack)@,
            ) + postorder_kids(
                kids(self.arena()),
                id as int,
                self.arena()[id as int].children@.len() as int,
            ),
            forall|j: int| 0 <= j < final(stack)@.len() ==> final(stack)@[j] < self.arena().len(),
    {
        let ghost ch = kids(self.nodes@);
        let ghost start = stack@;
        let m: usize = self.nodes[id].children.len();
        let mut k: usize = 0;
        while k < m
            invariant
                self.wf(),
                ch == kids(self.nodes@),
                id < self.nodes@.len(),
                m == self.nodes@[id as int].children@.len(),
                k <= m,
                stack_post(ch, stack@) == stack_post(ch, start) + postorder_kids(
                    ch,
                    id as int,
                    k as int,
                ),
                forall|j: int| 0 <= j < stack@.len() ==> stack@[j] < self.nodes@.len(),
            decreases m - k,
        {
            let c = self.nodes[id].children[k];
            assert(self.nodes@[id as int].children@[k as int] == c);
            let ghost before = stack@;
            stack.push(c);
            assert(stack@.drop_last() =~= before);
            assert(postorder_kids(ch, id as int, k + 1) == postorder_kids(ch, id as int, k as int)
                + postorder(ch, c as int));
            assert(stack_post(ch, stack@) =~= stack_post(ch, start) + postorder_kids(
                ch,
                id as int,
                k + 1,
            ));
            k += 1;
        }
    }

    /// Post-order traversal starting at `start` (children before root).
    pub fn post_order(&self, start: NodeId) -> (r: Vec<NodeId>)
        requires
            self.wf(),
            start < self.arena().len(),
        ensures
            r@ == postorder(kids(self.arena()), start as int),
    {
        // Two passes: reverse pre-order (right-to-left), then reverse the result.
        let ghost ch = kids(self.nodes@);
        let mut result: Vec<NodeId> = Vec::with_capacity(self.nodes[start].size);
        let mut stack: Vec<NodeId> = Vec::new();
        stack.push(start);
        assert(stack@.drop_last() =~= Seq::<usize>::empty());
        assert(stack@.last() == start);
        assert(stack_post(ch, Seq::<usize>::empty()) == Seq::<usize>::empty());
        assert(stack_post(ch, stack@) =~= postorder(ch, start as int));
        while stack.len() > 0
            invariant
                self.wf(),
                ch == kids(self.nodes@),
                forall|j: int| 0 <= j < stack@.len() ==> stack@[j] < self.nodes@.len(),
                stack_post(ch, stack@) + result@.reverse() == postorder(ch, start as int),
            decreases stack_post(ch, stack@).len(),
        {
            let ghost before = stack@;
            let id = stack.pop().unwrap();
            assert(before.drop_last() =~= stack@);
            let ghost rest = stack@;
            let ghost res0 = result@;
            result.push(id);
            self.push_children_fwd(id, &mut stack);
            let ghost m = self.nodes@[id as int].children@.len() as int;
            assert(postorder(ch, id as int) == postorder_kids(ch, id as int, m) + seq![id]);
            assert(result@.reverse() =~= seq![id] + res0.reverse());
            assert(stack_post(ch, stack@) + result@.reverse() =~= (stack_post(ch, rest) + postorder(
                ch,
                id as int,
            )) + res0.reverse());
        }
        assert(result@.reverse() =~= stack_post(ch, stack@) + result@.reverse());
        let n: usize = result.len();
        let mut reversed: Vec<NodeId> = Vec::with_capacity(n);
        let mut j: usize = n;
        while j > 0
            invariant
                j <= n,
                n == result@.len(),
                reversed@.len() == n - j,
                forall|t: int| 0 <= t < n - j ==> reversed@[t] == result@[n - 1 - t],
            decreases j,
        {
            j -= 1;
            reversed.push(result[j]);
        }
        assert(reversed@ =~= result@.reverse());
        reversed
    }

    /// Breadth-first traversal starting at `start`.
    pub fn bfs_order(&self, start: NodeId) -> (r: Vec<NodeId>)
        requires
            self.wf(),
            start < self.arena().len(),
        ensures
            r@ == bfs(kids(self.arena()), start as int),
    {
        let ghost ch = kids(self.nodes@);
        let ghost n = self.nodes@.len();
        let mut result: Vec<NodeId> = Vec::with_capacity(self.nodes[start].size);
        let mut queue: std::collections::VecDeque<NodeId> = std::collections::VecDeque::new();
        queue.push_back(start);
        let ghost mut a: Seq<usize> = seq![start];
        let ghost mut b: Seq<usize> = Seq::empty();
        let ghost mut lvl: int = 0;
        let ghost mut fuel: nat = (n - 1) as nat;
        proof {
            assert(queue@ =~= a + b);
            assert(next_level(ch, a.drop_first()) == Seq::<usize>::empty());
            assert(next_level(ch, a) =~= ch[start as int]);
            assert(levels_from(ch, a, n as nat) == a + levels_from(ch, next_level(ch, a), fuel));
            assert(b + next_level(ch, a) =~= next_level(ch, a));
            assert(result@ + a + levels_from(ch, b + next_level(ch, a), fuel) =~= bfs(ch, start as int));
        }
        while queue.len() > 0
            invariant
                self.wf(),
                ch == kids(self.nodes@),
                n == self.nodes@.len(),
                start < n,
                queue@ == a + b,
                result@ + a + levels_from(ch, b + next_level(ch, a), fuel) == bfs(ch, start as int),
                forall|j: int| 0 <= j < a.len() ==> start + lvl <= #[trigger] a[j] < n,
                forall|j: int| 0 <= j < b.len() ==> start + lvl + 1 <= #[trigger] b[j] < n,
                fuel + lvl + 1 == n,
                0 <= lvl,
            decreases bfs(ch, start as int).len() - result@.len(),
        {
            proof {
                if a.len() == 0 {
                    let b0 = b;
                    assert(b0.len() > 0);
                    assert(start + lvl + 1 <= b0[0] < n);
                    assert(fuel >= 1);
                    assert(next_level(ch, a) == Seq::<usize>::empty());
                    assert(b0 + next_level(ch, a) =~= b0);
                    assert(levels_from(ch, b0, fuel) == b0 + levels_from(
                        ch,
                        next_level(ch, b0),
                        (fuel - 1) as nat,
                    ));
                    a = b0;
                    b = Seq::empty();
                    lvl = lvl + 1;
                    fuel = (fuel - 1) as nat;
                    assert(b + next_level(ch, a) =~= next_level(ch, a));
                    assert(queue@ =~= a + b);
                }
            }
            let ghost a0 = a;
            let ghost b0 = b;
            let id = queue.pop_front().unwrap();
            assert(id == a0[0]);
            let ghost res0 = result@;
            result.push(id);
            let m: usize = self.nodes[id].children.len();
            let mut k: usize = 0;
            while k < m
                invariant
                    self.wf(),
                    ch == kids(self.nodes@),
                    id < self.nodes@.len(),
                    m == self.nodes@[id as int].children@.len(),
                    k <= m,
                    queue@ == a0.drop_first() + b0 + ch[id as int].take(k as int),
                decreases m - k,
            {
                let c = self.nodes[id].children[k];
                queue.push_back(c);
                assert(ch[id as int].take(k + 1) =~= ch[id as int].take(k as int).push(c));
                assert(queue@ =~= a0.drop_first() + b0 + ch[id as int].take(k + 1));
                k += 1;
            }
            proof {
                assert(ch[id as int].take(m as int) =~= ch[id as int]);
                assert forall|j: int| 0 <= j < ch[id as int].len() implies start + lvl + 1
                    <= #[trigger] ch[id as int][j] < n by {
                    assert(self.nodes@[id as int].children@[j] == ch[id as int][j]);
                }
                a = a0.drop_first();
                b = b0 + ch[id as int];
                assert(queue@ =~= a + b);
                assert(next_level(ch, a0) == ch[id as int] + next_level(ch, a));
                assert(b0 + next_level(ch, a0) =~= b + next_level(ch, a));
                assert(result@ + a =~= res0 + a0);
                assert forall|j: int| 0 <= j < b.len() implies start + lvl + 1 <= #[trigger] b[j] < n by {
                    if j >= b0.len() {
                        assert(b[j] == ch[id as int][j - b0.len()]);
                    } else {
                        assert(b[j] == b0[j]);
                    }
                }
                assert(result@ + a + levels_from(ch, b + next_level(ch, a), fuel) =~= res0 + a0
                    + levels_from(ch, b0 + next_level(ch, a0), fuel));
            }
        }
        proof {
            assert(a.len() == 0 && b.len() == 0);
            assert(next_level(ch, a) == Seq::<usize>::empty());
            assert(b + next_level(ch, a) =~= Seq::<usize>::empty());
            assert(result@ =~= result@ + a + levels_from(ch, b + next_level(ch, a), fuel));
        }
        result
    }

    /// All proper descendants of `start` (excluding `start` itself), in pre-order.
    pub fn descendants(&self, start: NodeId) -> (r: Vec<NodeId>)
        requires
            self.wf(),
            start < self.arena().len(),
        ensures
            r@ == preorder(kids(self.arena()), start as int).drop_first(),
    {
        let ghost ch = kids(self.nodes@);
        let ghost m = self.nodes@[start as int].children@.len() as int;
        let size = self.nodes[start].size;
        let capacity = if size > 0 {
            size - 1
        } else {
            0
        };
        let mut result: Vec<NodeId> = Vec::with_capacity(capacity);
        let mut stack: Vec<NodeId> = Vec::new();
        self.push_children_rev(start, &mut stack);
        assert(stack_pre(ch, Seq::<usize>::empty()) == Seq::<usize>::empty());
        assert(stack_pre(ch, stack@) =~= preorder_kids(ch, start as int, m));
        assert(result@ + stack_pre(ch, stack@) =~= preorder_kids(ch, start as int, m));
        while stack.len() > 0
            invariant
                self.wf(),
                ch == kids(self.nodes@),
                forall|j: int| 0 <= j < stack@.len() ==> stack@[j] < self.nodes@.len(),
                result@ + stack_pre(ch, stack@) == preorder_kids(ch, start as int, m),
            decreases stack_pre(ch, stack@).len(),
        {
            let ghost before = stack@;
            let id = stack.pop().unwrap();
            assert(before.drop_last() =~= stack@);
            let ghost rest = stack@;
            let ghost res0 = result@;
            result.push(id);
            self.push_children_rev(id, &mut stack);
            let ghost mm = self.nodes@[id as int].children@.len() as int;
            assert(preorder(ch, id as int) == seq![id] + preorder_kids(ch, id as int, mm));
            assert(result@ + stack_pre(ch, stack@) =~= res0 + (preorder(ch, id as int) + stack_pre(
                ch,
                rest,
            )));
        }
        assert(result@ =~= result@ + stack_pre(ch, stack@));
        assert(preorder(ch, start as int) == seq![start] + preorder_kids(ch, start as int, m));
        assert(preorder(ch, start as int).drop_first() =~= preorder_kids(ch, start as int, m));
        result
    }

    /// Membership of every node in the subtree rooted at `start`.
    fn subtree_membership(&self, start: NodeId) -> (r: Vec<bool>)
        requires
            arena_links(self.arena()),
            start < self.arena().len(),
        ensures
            r@.len() == self.arena().len(),
            forall|j: int|
                0 <= j < r@.len() ==> #[trigger] r@[j] == in_subtree(
                    parents(self.arena()),
                    start as int,
                    j,
                ),
    {
        let ghost par = parents(self.nodes@);
        let n = self.nodes.len();
        let mut member: Vec<bool> = Vec::with_capacity(n);
        let mut i: usize = 0;
        while i < n
            invariant
                arena_links(self.nodes@),
                par == parents(self.nodes@),
                n == self.nodes@.len(),
                start < n,
                i <= n,
                member@.len() == i,
                forall|j: int| 0 <= j < i ==> #[trigger] member@[j] == in_subtree(par, start as int, j),
            decreases n - i,
        {
            let inside = if i == start {
                true
            } else {
                match self.nodes[i].parent {
                    Some(p) => {
                        assert(self.nodes@[i as int].parent == par[i as int]);
                        member[p]
                    },
                    None => false,
                }
            };
            member.push(inside);
            i += 1;
        }
        member
    }

    /// Boolean membership array for all proper descendants of `start`.
    ///
    /// Index `i` is `true` iff node `i` is a proper descendant of `start`.
    pub fn descendant_set(&self, start: NodeId) -> (r: Vec<bool>)
        requires
            self.wf(),
            start < self.arena().len(),
        ensures
            r@.len() == self.arena().len(),
            forall|j: int|
                0 <= j < r@.len() ==> #[trigger] r@[j] == (j != start && in_subtree(
                    parents(self.arena()),
                    start as int,
                    j,
                )),
    {
        let mut member = self.subtree_membership(start);
        member.set(start, false);
        member
    }

    /// Returns the position of `child` within its parent's children list,
    /// or `None` if `child` has no parent.
    pub fn position_in_parent(&self, child: NodeId) -> (r: Option<usize>)
        requires
            self.wf(),
            child < self.arena().len(),
        ensures
            r is Some <==> self.arena()[child as int].parent is Some,
            r matches Some(k) ==> {
                let p = self.arena()[child as int].parent.unwrap() as int;
                &&& k < self.arena()[p].children@.len()
                &&& self.arena()[p].children@[k as int] == child
            },
    {
        let parent = match self.nodes[child].parent {
            Some(p) => p,
            None => return None,
        };
        assert(self.nodes@[parent as int].children@.contains(child));
        let m: usize = self.nodes[parent].children.len();
        let mut k: usize = 0;
        while k < m
            invariant
                self.wf(),
                parent < self.nodes@.len(),
                child < self.nodes@.len(),
                self.nodes@[child as int].parent == Some(parent),
                m == self.nodes@[parent as int].children@.len(),
                self.nodes@[parent as int].children@.contains(child),
                k <= m,
                forall|t: int| 0 <= t < k ==> self.nodes@[parent as int].children@[t] != child,
            decreases m - k,
        {
            if self.nodes[parent].children[k] == child {
                return Some(k);
            }
            k += 1;
        }
        None
    }

    /// Fills in height, size and structural hash for every node under the
    /// root, children before parents (ids in decreasing order).
    fn recompute_metadata(&mut self)
        requires
            builder_wf(old(self).arena()),
            0 <= old(self).root_id() < old(self).arena().len(),
        ensures
            final(self).wf(),
            final(self).root_id() == old(self).root_id(),
            same_structure(final(self).arena(), old(self).arena()),
            final(self).arena().len() <= usize::MAX,
    {
        let ghost orig = self.nodes@;
        let ghost ch = kids(orig);
        let ghost sh = shapes(orig);
        let ghost par = parents(orig);
        let ghost root0 = self.root;
        let n = self.nodes.len();
        let member = self.subtree_membership(self.root);
        let mut i: usize = n;
        proof {
            assert(same_structure(self.nodes@, orig));
        }
        while i > 0
            invariant
                n == self.nodes@.len(),
                n == orig.len(),
                member@.len() == n,
                i <= n,
                self.root < n,
                self.root == root0,
                builder_wf(orig),
                same_structure(self.nodes@, orig),
                ch == kids(orig),
                sh == shapes(orig),
                par == parents(orig),
                forall|j: int| 0 <= j < n ==> #[trigger] member@[j] == in_subtree(par, self.root as int, j),
                forall|j: int|
                    i <= j < n ==> if in_subtree(par, self.root as int, j) {
                        metadata_ok(self.nodes@, j)
                    } else {
                        metadata_blank(self.nodes@, j)
                    },
                forall|j: int| 0 <= j < i ==> #[trigger] metadata_blank(self.nodes@, j),
            decreases i,
        {
            i -= 1;
            proof {
                lemma_same_structure(self.nodes@, orig);
            }
            if member[i] {
                self.compute_node(i, Ghost(orig), Ghost(i as int), Ghost(member@));
            }
        }
        proof {
            lemma_same_structure(self.nodes@, orig);
        }
    }

    /// Computes the metadata of node `i` from that of its children.
    fn compute_node(
        &mut self,
        i: usize,
        Ghost(orig): Ghost<Seq<Node>>,
        Ghost(done): Ghost<int>,
        Ghost(member): Ghost<Seq<bool>>,
    )
        requires
            old(self).nodes@.len() == orig.len(),
            builder_wf(orig),
            same_structure(old(self).nodes@, orig),
            i == done,
            i < orig.len(),
            old(self).root < orig.len(),
            in_subtree(parents(orig), old(self).root as int, i as int),
            forall|j: int|
                done < j < orig.len() ==> if in_subtree(parents(orig), old(self).root as int, j) {
                    metadata_ok(old(self).nodes@, j)
                } else {
                    metadata_blank(old(self).nodes@, j)
                },
            forall|j: int| 0 <= j <= done ==> #[trigger] metadata_blank(old(self).nodes@, j),
        ensures
            final(self).nodes@.len() == orig.len(),
            final(self).root == old(self).root,
            same_structure(final(self).nodes@, orig),
            forall|j: int|
                done <= j < orig.len() ==> if in_subtree(parents(orig), old(self).root as int, j) {
                    metadata_ok(final(self).nodes@, j)
                } else {
                    metadata_blank(final(self).nodes@, j)
                },
            forall|j: int| 0 <= j < done ==> #[trigger] metadata_blank(final(self).nodes@, j),
    {
        let ghost ch = kids(orig);
        let ghost sh = shapes(orig);
        let ghost par = parents(orig);
        let ghost root = self.root as int;
        assert(self.nodes@.len() == self.nodes.len());
        proof {
            lemma_same_structure(self.nodes@, orig);
            lemma_subtree_size_bound(orig, i as int);
            lemma_max_kid_height_le(ch, i as int, ch[i as int].len() as int);
        }
        let m: usize = self.nodes[i].children.len();
        assert(m == ch[i as int].len());
        let mut max_height: usize = 0;
        let mut total_size: usize = 1;
        let mut hasher = std::collections::hash_map::DefaultHasher::new();
        let separator: Vec<u8> = vec![0xffu8];
        assert(separator@ =~= seq![0xffu8]);
        hasher.write(self.nodes[i].kind.as_str().as_bytes());
        hasher.write(separator.as_slice());
        hasher.write(self.nodes[i].label.as_str().as_bytes());
        hasher.write(separator.as_slice());
        assert(hasher@ =~= hash_writes(sh, i as int, 0));
        let mut k: usize = 0;
        while k < m
            invariant
                self.nodes@.len() == orig.len(),
                same_structure(self.nodes@, orig),
                builder_wf(orig),
                ch == kids(orig),
                sh == shapes(orig),
                par == parents(orig),
                kids(self.nodes@) == ch,
                shapes(self.nodes@) == sh,
                i < orig.len(),
                i == done,
                root == self.root,
                m == ch[i as int].len(),
                k <= m,
                in_subtree(par, root, i as int),
                orig.len() <= usize::MAX,
                forall|j: int|
                    #![trigger in_subtree(par, root, j)]
                    done < j < orig.len() ==> if in_subtree(par, root, j) {
                        metadata_ok(self.nodes@, j)
                    } else {
                        metadata_blank(self.nodes@, j)
                    },
                forall|j: int| 0 <= j <= done ==> #[trigger] metadata_blank(self.nodes@, j),
                max_height == max_kid_height(ch, i as int, k as int),
                total_size == 1 + preorder_kids(ch, i as int, k as int).len(),
                hasher@ == hash_writes(sh, i as int, k as int),
                preorder(ch, i as int).len() <= orig.len() - i,
                preorder(ch, i as int) == seq![i] + preorder_kids(ch, i as int, m as int),
            decreases m - k,
        {
            let c = self.nodes[i].children[k];
            proof {
                assert(self.nodes@[i as int].children@[k as int] == c);
                assert(orig[i as int].children@[k as int] == c);
                assert(i < c < orig.len());
                assert(orig[c as int].parent == Some(i));
                assert(par[c as int] == Some(i));
                assert(in_subtree(par, root, c as int));
                assert(metadata_ok(self.nodes@, c as int));
                lemma_preorder_kids_monotone(ch, i as int, (k + 1) as int, m as int);
                assert(preorder_kids(ch, i as int, k + 1) == preorder_kids(ch, i as int, k as int)
                    + preorder(ch, c as int));
            }
            let child_height = self.nodes[c].height;
            if child_height > max_height {
                max_height = child_height;
            }
            total_size += self.nodes[c].size;
            let bytes = le_bytes_vec(self.nodes[c].hash);
            let ghost h0 = hasher@;
            hasher.write(bytes.as_slice());
            proof {
                assert(sh[i as int].2[k as int] == c);
                assert(hasher@ == h0.push(le_bytes(subtree_hash(sh, c as int))));
            }
            k += 1;
        }
        assert(hasher@ == hash_writes(sh, i as int, m as int));
        let hash = hasher.finish();
        let ghost before = self.nodes@;
        self.nodes[i].height = max_height + 1;
        self.nodes[i].size = total_size;
        self.nodes[i].hash = hash;
        proof {
            assert(same_structure(self.nodes@, orig));
            lemma_same_structure(self.nodes@, orig);
            assert forall|j: int|
                done <= j < orig.len() implies if in_subtree(par, self.root as int, j) {
                metadata_ok(self.nodes@, j)
            } else {
                metadata_blank(self.nodes@, j)
            } by {
                if j != i {
                    assert(self.nodes@[j] == before[j]);
                }
            }
            assert forall|j: int| 0 <= j < done implies #[trigger] metadata_blank(self.nodes@, j) by {
                assert(metadata_blank(before, j));
                assert(self.nodes@[j] == before[j]);
            }
        }
    }

    /// Every node, in id order.
    pub fn all_nodes(&self) -> (s: &[Node])
        ensures
            s@ == self.arena(),
    {
        self.nodes.as_slice()
    }
}

/// Mutable builder used to construct a [`Tree`] node by node.
#[derive(Debug)]
pub struct TreeBuilder {
    nodes: Vec<Node>,
}

impl TreeBuilder {
    /// The nodes added so far.
    pub closed spec fn arena(&self) -> Seq<Node> {
        self.nodes@
    }

    /// Well-formedness of a builder.
    pub open spec fn wf(&self) -> bool {
        builder_wf(self.arena())
    }

    /// An empty builder.
    pub fn new() -> (b: Self)
        ensures
            b.wf(),
            b.arena().len() == 0,
    {
        TreeBuilder { nodes: Vec::new() }
    }

    /// Adds a node and returns its assigned id.
    ///
    /// `parent` must be a previously-added node (or `None` for the root).
    pub fn add(
        &mut self,
        kind: &str,
        label: &str,
        parent: Option<NodeId>,
        start_byte: usize,
        end_byte: usize,
    ) -> (id: NodeId)
        requires
            old(self).wf(),
            parent matches Some(p) ==> p < old(self).arena().len(),
        ensures
            final(self).wf(),
            id == old(self).arena().len(),
            final(self).arena().len() == old(self).arena().len() + 1,
            final(self).arena()[id as int].id == id,
            final(self).arena()[id as int].kind@ == kind@,
            final(self).arena()[id as int].label@ == label@,
            final(self).arena()[id as int].start_byte == start_byte,
            final(self).arena()[id as int].end_byte == end_byte,
            final(self).arena()[id as int].parent == parent,
            final(self).arena()[id as int].children@ == Seq::<usize>::empty(),
            forall|j: int|
                0 <= j < id && parent != Some(j as usize) ==> #[trigger] final(self).arena()[j]
                    == old(self).arena()[j],
            parent matches Some(p) ==> {
                let before = old(self).arena()[p as int];
                let after = final(self).arena()[p as int];
                &&& after.children@ == before.children@.push(id)
                &&& after.id == before.id
                &&& after.kind == before.kind
                &&& after.label == before.label
                &&& after.start_byte == before.start_byte
                &&& after.end_byte == before.end_byte
                &&& after.parent == before.parent
            },
    {
        let id = self.nodes.len();
        let node = Node {
            id,
            kind: kind.to_owned(),
            label: label.to_owned(),
            start_byte,
            end_byte,
            parent,
            children: Vec::new(),
            height: 0,
            size: 0,
            hash: 0,
        };
        let ghost before = self.nodes@;
        if let Some(parent_id) = parent {
            self.nodes[parent_id].children.push(id);
        }
        self.nodes.push(node);
        proof {
            let nodes = self.nodes@;
            assert forall|i: int| 0 <= i < nodes.len() implies #[trigger] nodes[i].id == i by {
                if i < id {
                    assert(nodes[i].id == before[i].id);
                }
            }
            assert forall|i: int| 0 <= i < nodes.len() implies match #[trigger] nodes[i].parent {
                Some(p) => p < i && nodes[p as int].children@.contains(i as usize),
                None => true,
            } by {
                if i < id {
                    assert(nodes[i].parent == before[i].parent);
                    if let Some(p) = nodes[i].parent {
                        assert(before[p as int].children@.contains(i as usize));
                        let k = choose|k: int|
                            0 <= k < before[p as int].children@.len()
                                && before[p as int].children@[k] == i as usize;
                        assert(nodes[p as int].children@[k] == i as usize);
                    }
                } else {
                    if let Some(p) = parent {
                        assert(nodes[p as int].children@.last() == id);
                    }
                }
            }
            assert forall|i: int, k: int|
                0 <= i < nodes.len() && 0 <= k < nodes[i].children@.len() implies {
                let c = #[trigger] nodes[i].children@[k];
                &&& i < c < nodes.len()
                &&& nodes[c as int].parent == Some(i as usize)
            } by {
                if i < id {
                    if k < before[i].children@.len() {
                        assert(nodes[i].children@[k] == before[i].children@[k]);
                        let c = before[i].children@[k];
                        assert(before[c as int].parent == Some(i as usize));
                    }
                }
            }
            assert forall|i: int, k1: int, k2: int|
                0 <= i < nodes.len() && 0 <= k1 < k2 < nodes[i].children@.len() implies #[trigger] nodes[i].children@[k1]
                < #[trigger] nodes[i].children@[k2] by {
                if i < id {
                    assert(nodes[i].children@[k1] == before[i].children@[k1]);
                    if k2 < before[i].children@.len() {
                        assert(nodes[i].children@[k2] == before[i].children@[k2]);
                    }
                }
            }
            assert forall|i: int| 0 <= i < nodes.len() implies #[trigger] metadata_blank(nodes, i) by {
                if i < id {
                    assert(metadata_blank(before, i));
                }
            }
        }
        id
    }

    /// Finalises the tree. `root` must be a valid id, normally the first node added.
    pub fn build(self, root: NodeId) -> (t: Tree)
        requires
            self.wf(),
            root < self.arena().len(),
        ensures
            t.wf(),
            t.root_id() == root,
            same_structure(t.arena(), self.arena()),
            t.arena().len() <= usize::MAX,
    {
        let mut tree = Tree { nodes: self.nodes, root };
        tree.recompute_metadata();
        tree
    }
}

} // verus!

//! Edit script generation (Chawathe et al.).
//!
//! Given a mapping `M : T1 → T2`, produces a list of [`Action`]s describing
//! how to transform `T1` into `T2`:
//!
//! * **insert-tree / insert-node** — destination nodes with no source counterpart.
//! * **delete-tree / delete-node** — source nodes with no destination counterpart.
//! * **update-node** — same node but different label.
//! * **move-tree** — mapped node whose parent changed, or whose siblings reordered.
//!
//! The algorithm walks T2 in BFS order to emit inserts/updates/moves, then runs
//! an alignment pass over each mapped (w, x) pair to catch sibling reorderings,
//! then walks T1 in pre-order to emit deletes (collapsing to delete-tree where
//! the entire subtree is unmapped).
//!
//! Positions are final indices in T2 (where the node ends up in the
//! destination tree), not positions tracked while the script is applied.

use std::collections::HashSet;
use vstd::prelude::*;

use crate::lis::{increasing_positions, longest_increasing_subsequence};
use crate::mapping::{lemma_fits_backward, Mapping};
use crate::tree::{
    arena_links, bfs, in_subtree, kids, lemma_ancestors_ordered, lemma_bfs_complete, lemma_bfs_in_subtree,
    lemma_preorder_complete, lemma_child_index, lemma_in_subtree_ge,
    lemma_in_subtree_lift, lemma_preorder_members, lemma_under_some_child, parents, preorder, Node,
    NodeId, Tree,
};

verus! {

broadcast use vstd::std_specs::hash::group_hash_axioms;

#[derive(Debug, Clone, PartialEq)]
pub enum Action {
    /// Insert a fresh subtree (root + all descendants new).
    InsertTree { node: NodeId, parent: NodeId, position: usize },
    /// Insert a single node whose descendants partially survive.
    InsertNode { node: NodeId, parent: NodeId, position: usize },
    /// Delete an entire unmapped subtree.
    DeleteTree { node: NodeId },
    /// Delete a single unmapped node whose descendants survive.
    DeleteNode { node: NodeId },
    /// Change the label of a mapped node.
    Update { node: NodeId, new_label: String },
    /// Move a mapped subtree under a new parent / position.
    MoveTree { node: NodeId, parent: NodeId, position: usize },
}

/// The GumTree name of an action's kind.
pub open spec fn action_name(a: Action) -> Seq<char> {
    match a {
        Action::InsertTree { .. } => "insert-tree"@,
        Action::InsertNode { .. } => "insert-node"@,
        Action::DeleteTree { .. } => "delete-tree"@,
        Action::DeleteNode { .. } => "delete-node"@,
        Action::Update { .. } => "update-node"@,
        Action::MoveTree { .. } => "move-tree"@,
    }
}

impl Action {
    pub fn action_str(&self) -> (s: &'static str)
        ensures
            s@ == action_name(*self),
    {
        match self {
            Action::InsertTree { .. } => "insert-tree",
            Action::InsertNode { .. } => "insert-node",
            Action::DeleteTree { .. } => "delete-tree",
            Action::DeleteNode { .. } => "delete-node",
            Action::Update { .. } => "update-node",
            Action::MoveTree { .. } => "move-tree",
        }
    }
}

/// Law: the name of an action says what it does. It starts with `insert-`
/// exactly for the two inserts, with `delete-` exactly for the two deletes,
/// and ends with `-tree` exactly for the actions that take a whole subtree
/// (insert-tree, delete-tree, move-tree), with `-node` exactly for those
/// that take one node (insert-node, delete-node, update).
pub proof fn lemma_action_name_says_kind(a: Action)
    ensures
        "insert-"@.is_prefix_of(action_name(a)) <==> (a is InsertTree || a is InsertNode),
        "delete-"@.is_prefix_of(action_name(a)) <==> (a is DeleteTree || a is DeleteNode),
        "-tree"@.is_suffix_of(action_name(a)) <==> (a is InsertTree || a is DeleteTree || a is MoveTree),
        "-node"@.is_suffix_of(action_name(a)) <==> (a is InsertNode || a is DeleteNode || a is Update),
{
    reveal_strlit("insert-");
    reveal_strlit("delete-");
    reveal_strlit("-tree");
    reveal_strlit("-node");
    reveal_strlit("insert-tree");
    reveal_strlit("insert-node");
    reveal_strlit("delete-tree");
    reveal_strlit("delete-node");
    reveal_strlit("update-node");
    reveal_strlit("move-tree");
    let n = action_name(a);
    let len = n.len() as int;
    assert(n.len() >= 9);
    // The first letter and the letter five from the end tell the kinds apart.
    if "insert-"@.is_prefix_of(n) {
        assert(n[0] == "insert-"@[0]);
    }
    if "delete-"@.is_prefix_of(n) {
        assert(n[0] == "delete-"@[0]);
    }
    if "-tree"@.is_suffix_of(n) {
        assert(n[len - 4] == "-tree"@[1]);
    }
    if "-node"@.is_suffix_of(n) {
        assert(n[len - 4] == "-node"@[1]);
    }
    match a {
        Action::InsertTree { .. } => {
            assert("insert-"@ =~= n.subrange(0, 7));
            assert("-tree"@ =~= n.subrange(len - 5, len));
        },
        Action::InsertNode { .. } => {
            assert("insert-"@ =~= n.subrange(0, 7));
            assert("-node"@ =~= n.subrange(len - 5, len));
        },
        Action::DeleteTree { .. } => {
            assert("delete-"@ =~= n.subrange(0, 7));
            assert("-tree"@ =~= n.subrange(len - 5, len));
        },
        Action::DeleteNode { .. } => {
            assert("delete-"@ =~= n.subrange(0, 7));
            assert("-node"@ =~= n.subrange(len - 5, len));
        },
        Action::Update { .. } => {
            assert("-node"@ =~= n.subrange(len - 5, len));
        },
        Action::MoveTree { .. } => {
            assert("-tree"@ =~= n.subrange(len - 5, len));
        },
    }
}

/// Law: actions of different kinds have different names, so a name tells
/// its kind.
pub proof fn lemma_action_names_distinct(a: Action, b: Action)
    requires
        action_name(a) == action_name(b),
    ensures
        (a is InsertTree && b is InsertTree) || (a is InsertNode && b is InsertNode) || (a is DeleteTree
            && b is DeleteTree) || (a is DeleteNode && b is DeleteNode) || (a is Update && b is Update) || (
        a is MoveTree && b is MoveTree),
{
    lemma_action_name_says_kind(a);
    lemma_action_name_says_kind(b);
    reveal_strlit("update-node");
    reveal_strlit("move-tree");
    reveal_strlit("insert-tree");
    reveal_strlit("insert-node");
    reveal_strlit("delete-tree");
    reveal_strlit("delete-node");
    if a is Update || b is Update {
        assert(action_name(a)[0] == action_name(b)[0]);
    }
}

// ---------------------------------------------------------------------------
// What the edit script is.
// ---------------------------------------------------------------------------

/// No node of the subtree rooted at `x` is in `mapped`.
pub open spec fn clear_subtree(par: Seq<Option<usize>>, mapped: Set<usize>, x: int) -> bool {
    forall|y: int| #[trigger] in_subtree(par, x, y) ==> !mapped.contains(y as usize)
}

/// Some proper ancestor of `x`, other than `skip`, has a clear subtree: an
/// action on that ancestor already accounts for `x`.
pub open spec fn under_clear(par: Seq<Option<usize>>, mapped: Set<usize>, skip: int, x: int) -> bool {
    exists|a: int|
        a != x && a != skip && #[trigger] in_subtree(par, a, x) && clear_subtree(par, mapped, a)
}

/// Index of node `d` among its parent's children.
pub open spec fn position_of(t: Seq<Node>, d: int) -> usize {
    t[t[d].parent.unwrap() as int].children@.index_of(d as usize) as usize
}

/// What the walk over the destination tree emits for node `d`. The root
/// is neither inserted nor moved, but a mapped root whose label changed is
/// updated like any other mapped node.
pub open spec fn dst_actions(
    t1: Seq<Node>,
    t2: Seq<Node>,
    root2: int,
    bwd: Map<usize, usize>,
    d: int,
) -> Seq<Action> {
    let par2 = parents(t2);
    if d == root2 {
        if bwd.contains_key(d as usize) && t1[bwd[d as usize] as int].label@ != t2[d].label@ {
            seq![Action::Update { node: bwd[d as usize], new_label: t2[d].label }]
        } else {
            seq![]
        }
    } else if under_clear(par2, bwd.dom(), root2, d) {
        seq![]
    } else {
        let p = t2[d].parent.unwrap();
        let k = position_of(t2, d);
        if !bwd.contains_key(d as usize) {
            if clear_subtree(par2, bwd.dom(), d) {
                seq![Action::InsertTree { node: d as usize, parent: p, position: k }]
            } else {
                seq![Action::InsertNode { node: d as usize, parent: p, position: k }]
            }
        } else {
            let s = bwd[d as usize];
            let expected = if bwd.contains_key(p) {
                Some(bwd[p])
            } else {
                None
            };
            (if t1[s as int].label@ != t2[d].label@ {
                seq![Action::Update { node: s, new_label: t2[d].label }]
            } else {
                seq![]
            }) + (if t1[s as int].parent != expected {
                seq![Action::MoveTree { node: s, parent: p, position: k }]
            } else {
                seq![]
            })
        }
    }
}

/// Inserts, updates and parent-changing moves, node by node along `order`.
pub open spec fn script_inserts(
    t1: Seq<Node>,
    t2: Seq<Node>,
    root2: int,
    bwd: Map<usize, usize>,
    order: Seq<usize>,
) -> Seq<Action>
    decreases order.len(),
{
    if order.len() == 0 {
        seq![]
    } else {
        script_inserts(t1, t2, root2, bwd, order.drop_last()) + dst_actions(
            t1,
            t2,
            root2,
            bwd,
            order.last() as int,
        )
    }
}

/// What the walk over the source tree emits for node `s`.
pub open spec fn src_actions(t1: Seq<Node>, fwd: Map<usize, usize>, s: int) -> Seq<Action> {
    let par1 = parents(t1);
    if fwd.contains_key(s as usize) || under_clear(par1, fwd.dom(), -1, s) {
        seq![]
    } else if clear_subtree(par1, fwd.dom(), s) {
        seq![Action::DeleteTree { node: s as usize }]
    } else {
        seq![Action::DeleteNode { node: s as usize }]
    }
}

/// Deletes, node by node along `order`.
pub open spec fn script_deletes(t1: Seq<Node>, fwd: Map<usize, usize>, order: Seq<usize>) -> Seq<
    Action,
>
    decreases order.len(),
{
    if order.len() == 0 {
        seq![]
    } else {
        script_deletes(t1, fwd, order.drop_last()) + src_actions(t1, fwd, order.last() as int)
    }
}

/// The first `k` children of `s` whose image is a child of `d`, each with
/// the destination position of its image.
pub open spec fn paired_children(
    t1: Seq<Node>,
    t2: Seq<Node>,
    fwd: Map<usize, usize>,
    s: int,
    d: int,
    k: int,
) -> Seq<(usize, usize)>
    decreases k,
{
    if k <= 0 {
        seq![]
    } else {
        let prev = paired_children(t1, t2, fwd, s, d, k - 1);
        let c = t1[s].children@[k - 1];
        if fwd.contains_key(c) && fwd[c] < t2.len() && t2[fwd[c] as int].parent == Some(
            d as usize,
        ) {
            prev.push((c, position_of(t2, fwd[c] as int)))
        } else {
            prev
        }
    }
}

/// All children of `s` whose image is a child of `d`.
pub open spec fn pairing(t1: Seq<Node>, t2: Seq<Node>, fwd: Map<usize, usize>, s: int, d: int) -> Seq<
    (usize, usize),
> {
    paired_children(t1, t2, fwd, s, d, t1[s].children@.len() as int)
}

/// The destination positions of a pairing, in source order.
pub open spec fn pair_positions(p: Seq<(usize, usize)>) -> Seq<usize> {
    p.map_values(|x: (usize, usize)| x.1)
}

/// Moves for the first `n` entries of a pairing whose index is not kept.
pub open spec fn unkept_moves(p: Seq<(usize, usize)>, d: usize, kept: Seq<usize>, n: int) -> Seq<
    Action,
>
    decreases n,
{
    if n <= 0 {
        seq![]
    } else {
        unkept_moves(p, d, kept, n - 1) + (if kept.contains((n - 1) as usize) {
            seq![]
        } else {
            seq![Action::MoveTree { node: p[n - 1].0, parent: d, position: p[n - 1].1 }]
        })
    }
}

/// `kept` is a longest strictly increasing run of `values`.
pub open spec fn longest_run(values: Seq<usize>, kept: Seq<usize>) -> bool {
    &&& increasing_positions(values, kept)
    &&& forall|other: Seq<usize>| increasing_positions(values, other) ==> other.len() <= kept.len()
}

/// The sibling re-alignment moves of every link in `links`, where the
/// children that stay put for the `k`-th link are those listed in `kept[k]`.
pub open spec fn realign(
    t1: Seq<Node>,
    t2: Seq<Node>,
    fwd: Map<usize, usize>,
    links: Seq<(usize, usize)>,
    kept: Seq<Seq<usize>>,
) -> Seq<Action>
    decreases links.len(),
{
    if links.len() == 0 {
        seq![]
    } else {
        let s = links.last().0 as int;
        let d = links.last().1;
        let p = pairing(t1, t2, fwd, s, d as int);
        realign(t1, t2, fwd, links.drop_last(), kept.drop_last()) + unkept_moves(
            p,
            d,
            kept.last(),
            p.len() as int,
        )
    }
}

/// For each link, the kept children form a longest increasing run of
/// destination positions.
pub open spec fn runs_longest(
    t1: Seq<Node>,
    t2: Seq<Node>,
    fwd: Map<usize, usize>,
    links: Seq<(usize, usize)>,
    kept: Seq<Seq<usize>>,
) -> bool {
    &&& kept.len() == links.len()
    &&& forall|k: int|
        0 <= k < links.len() ==> longest_run(
            pair_positions(pairing(t1, t2, fwd, links[k].0 as int, links[k].1 as int)),
            #[trigger] kept[k],
        )
}

/// `a` moves node `n`.
pub open spec fn moves_node(a: Action, n: usize) -> bool {
    a matches Action::MoveTree { node, .. } && node == n
}

/// The actions with every move of an already-moved node dropped.
pub open spec fn drop_repeat_moves(acts: Seq<Action>) -> Seq<Action>
    decreases acts.len(),
{
    if acts.len() == 0 {
        seq![]
    } else {
        let prev = drop_repeat_moves(acts.drop_last());
        let a = acts.last();
        match a {
            Action::MoveTree { node, .. } => if exists|k: int|
                0 <= k < acts.len() - 1 && #[trigger] moves_node(acts[k], node) {
                prev
            } else {
                prev.push(a)
            },
            _ => prev.push(a),
        }
    }
}

/// The edit script: inserts, updates and moves along a breadth-first walk of
/// the destination tree; re-alignment moves for every link; repeated moves
/// dropped; then deletes along a pre-order walk of the source tree.
pub open spec fn edit_script(
    t1: Seq<Node>,
    root1: int,
    t2: Seq<Node>,
    root2: int,
    m: Mapping,
    kept: Seq<Seq<usize>>,
) -> Seq<Action> {
    drop_repeat_moves(
        script_inserts(t1, t2, root2, m.bwd(), bfs(kids(t2), root2)) + realign(
            t1,
            t2,
            m.fwd(),
            m.links(),
            kept,
        ),
    ) + script_deletes(t1, m.fwd(), preorder(kids(t1), root1))
}

// ---------------------------------------------------------------------------
// A tree diffed against itself.
// ---------------------------------------------------------------------------

/// `t1` and `t2` hold the same nodes, up to cached metadata: the same
/// labels, parents and children.
pub open spec fn same_shape(t1: Seq<Node>, t2: Seq<Node>) -> bool {
    &&& t1.len() == t2.len()
    &&& forall|i: int|
        0 <= i < t1.len() ==> (#[trigger] t1[i]).label@ == t2[i].label@ && t1[i].parent == t2[i].parent
            && t1[i].children@ == t2[i].children@
}

/// `m` links every node of `t` to itself.
pub open spec fn identity_on(t: Seq<Node>, m: Mapping) -> bool {
    forall|x: usize|
        #![trigger m.fwd().contains_key(x)]
        #![trigger m.fwd()[x]]
        x < t.len() ==> m.fwd().contains_key(x) && m.fwd()[x] == x
}

/// Under the identity mapping, the destination walk emits nothing for any
/// node of the tree.
proof fn lemma_identity_inserts(t1: Seq<Node>, t: Seq<Node>, root: int, m: Mapping, order: Seq<usize>)
    requires
        arena_links(t),
        t.len() <= usize::MAX,
        same_shape(t1, t),
        m.wf(),
        identity_on(t, m),
        forall|j: int| 0 <= j < order.len() ==> in_subtree(parents(t), root, #[trigger] order[j] as int),
    ensures
        script_inserts(t1, t, root, m.bwd(), order) == Seq::<Action>::empty(),
    decreases order.len(),
{
    if order.len() > 0 {
        let prefix = order.drop_last();
        assert forall|j: int| 0 <= j < prefix.len() implies in_subtree(parents(t), root, #[trigger] prefix[j] as int) by {
            assert(prefix[j] == order[j]);
        }
        lemma_identity_inserts(t1, t, root, m, prefix);
        let d = order.last() as int;
        assert(in_subtree(parents(t), root, order[order.len() - 1] as int));
        lemma_in_subtree_ge(parents(t), root, d);
        let du = order.last();
        assert(du < t.len());
        assert(identity_on(t, m));
        assert(du < t.len() ==> m.fwd().contains_key(du) && m.fwd()[du] == du);
        assert(m.fwd().contains_key(du) && m.fwd()[du] == du);
        assert(m.bwd().contains_key(du) && m.bwd()[du] == du);
        if d != root && !under_clear(parents(t), m.bwd().dom(), root, d) {
            assert(parents(t)[d] == t[d].parent);
            let p = t[d].parent.unwrap();
            assert(p < d);
            assert(m.fwd().contains_key(p) && m.fwd()[p] == p);
            assert(m.bwd().contains_key(p) && m.bwd()[p] == p);
        }
        assert(t1[d].label@ == t[d].label@ && t1[d].parent == t[d].parent);
        assert(dst_actions(t1, t, root, m.bwd(), d) =~= Seq::<Action>::empty());
        assert(script_inserts(t1, t, root, m.bwd(), order) =~= Seq::<Action>::empty());
    }
}

/// Under the identity mapping, the source walk deletes nothing.
proof fn lemma_identity_deletes(t: Seq<Node>, m: Mapping, order: Seq<usize>)
    requires
        identity_on(t, m),
        forall|j: int| 0 <= j < order.len() ==> #[trigger] order[j] < t.len(),
    ensures
        script_deletes(t, m.fwd(), order) == Seq::<Action>::empty(),
    decreases order.len(),
{
    if order.len() > 0 {
        let prefix = order.drop_last();
        assert forall|j: int| 0 <= j < prefix.len() implies #[trigger] prefix[j] < t.len() by {
            assert(prefix[j] == order[j]);
        }
        lemma_identity_deletes(t, m, prefix);
        let s = order.last() as int;
        assert(order[order.len() - 1] < t.len());
        assert(m.fwd().contains_key(s as usize));
        assert(script_deletes(t, m.fwd(), order) =~= Seq::<Action>::empty());
    }
}

/// Under the identity mapping, the first `k` children of `x` all pair with
/// themselves, each at its own position.
proof fn lemma_identity_pairing(t: Seq<Node>, t2: Seq<Node>, m: Mapping, x: int, k: int)
    requires
        arena_links(t),
        t.len() <= usize::MAX,
        same_shape(t, t2),
        identity_on(t, m),
        0 <= x < t.len(),
        0 <= k <= t[x].children@.len(),
    ensures
        pair_positions(paired_children(t, t2, m.fwd(), x, x, k)) == Seq::new(k as nat, |q: int| q as usize),
    decreases k,
{
    if k > 0 {
        lemma_identity_pairing(t, t2, m, x, k - 1);
        let c = t[x].children@[k - 1];
        assert(x < c < t.len());
        assert(t[c as int].parent == Some(x as usize));
        assert(t2[c as int].parent == t[c as int].parent);
        assert(t2[x].children@ == t[x].children@);
        assert(m.fwd().contains_key(c) && m.fwd()[c] == c);
        lemma_child_index(t, x, k - 1);
        let prev = paired_children(t, t2, m.fwd(), x, x, k - 1);
        assert(paired_children(t, t2, m.fwd(), x, x, k) == prev.push((c, (k - 1) as usize)));
        assert(pair_positions(prev.push((c, (k - 1) as usize))) =~= pair_positions(prev).push((k - 1) as usize));
        assert(pair_positions(paired_children(t, t2, m.fwd(), x, x, k)) =~= Seq::new(k as nat, |q: int| q as usize));
    }
}

/// A strictly increasing list of at least `n` positions below `n` holds
/// every position below `n`.
proof fn lemma_full_run(kept: Seq<usize>, n: int)
    requires
        kept.len() >= n >= 0,
        forall|k: int| 0 <= k < kept.len() ==> #[trigger] kept[k] < n,
        forall|j: int, k: int| 0 <= j < k < kept.len() ==> #[trigger] kept[j] < #[trigger] kept[k],
    ensures
        forall|q: usize| q < n ==> #[trigger] kept.contains(q),
{
    // kept[k] >= k, and kept[k] <= n - 1 - (len - 1 - k).
    assert forall|k: int| 0 <= k < kept.len() implies #[trigger] kept[k] >= k by {
        lemma_run_lower(kept, k);
    }
    assert forall|k: int| 0 <= k < kept.len() implies #[trigger] kept[k] + (kept.len() - 1 - k) < n by {
        lemma_run_upper(kept, n, k);
    }
    assert forall|q: usize| q < n implies #[trigger] kept.contains(q) by {
        let i = q as int;
        assert(kept[i] >= i);
        assert(kept[i] + (kept.len() - 1 - i) < n);
        assert(kept[i] == q);
    }
}

proof fn lemma_run_lower(kept: Seq<usize>, k: int)
    requires
        0 <= k < kept.len(),
        forall|j: int, i: int| 0 <= j < i < kept.len() ==> #[trigger] kept[j] < #[trigger] kept[i],
    ensures
        kept[k] >= k,
    decreases k,
{
    if k > 0 {
        lemma_run_lower(kept, k - 1);
        assert(kept[k - 1] < kept[k]);
    }
}

proof fn lemma_run_upper(kept: Seq<usize>, n: int, k: int)
    requires
        0 <= k < kept.len(),
        forall|i: int| 0 <= i < kept.len() ==> #[trigger] kept[i] < n,
        forall|j: int, i: int| 0 <= j < i < kept.len() ==> #[trigger] kept[j] < #[trigger] kept[i],
    ensures
        kept[k] + (kept.len() - 1 - k) < n,
    decreases kept.len() - k,
{
    if k < kept.len() - 1 {
        lemma_run_upper(kept, n, k + 1);
        assert(kept[k] < kept[k + 1]);
    }
}

/// Moves for no entry of a pairing all of whose indices are kept.
proof fn lemma_no_unkept_moves(p: Seq<(usize, usize)>, d: usize, kept: Seq<usize>, n: int)
    requires
        0 <= n,
        n <= usize::MAX + 1,
        forall|q: usize| q < n ==> #[trigger] kept.contains(q),
    ensures
        unkept_moves(p, d, kept, n) == Seq::<Action>::empty(),
    decreases n,
{
    if n > 0 {
        lemma_no_unkept_moves(p, d, kept, n - 1);
        assert(kept.contains((n - 1) as usize));
        assert(unkept_moves(p, d, kept, n) =~= Seq::<Action>::empty());
    }
}

/// Under the identity mapping, no link re-aligns any child.
proof fn lemma_identity_realign(
    t: Seq<Node>,
    t2: Seq<Node>,
    m: Mapping,
    links: Seq<(usize, usize)>,
    kept: Seq<Seq<usize>>,
)
    requires
        arena_links(t),
        t.len() <= usize::MAX,
        same_shape(t, t2),
        identity_on(t, m),
        runs_longest(t, t2, m.fwd(), links, kept),
        forall|j: int| 0 <= j < links.len() ==> (#[trigger] links[j]).0 < t.len() && links[j].1 == links[j].0,
    ensures
        realign(t, t2, m.fwd(), links, kept) == Seq::<Action>::empty(),
    decreases links.len(),
{
    if links.len() > 0 {
        let lp = links.drop_last();
        let kp = kept.drop_last();
        assert forall|j: int| 0 <= j < lp.len() implies (#[trigger] lp[j]).0 < t.len() && lp[j].1 == lp[j].0 by {
            assert(lp[j] == links[j]);
        }
        assert forall|k: int| 0 <= k < lp.len() implies longest_run(
            pair_positions(pairing(t, t2, m.fwd(), lp[k].0 as int, lp[k].1 as int)),
            #[trigger] kp[k],
        ) by {
            assert(lp[k] == links[k]);
            assert(kp[k] == kept[k]);
        }
        lemma_identity_realign(t, t2, m, lp, kp);
        let last = links.len() - 1;
        assert(links[last].0 < t.len() && links[last].1 == links[last].0);
        let x = links.last().0 as int;
        let n = t[x].children@.len() as int;
        let p = pairing(t, t2, m.fwd(), x, x);
        lemma_identity_pairing(t, t2, m, x, n);
        let values = pair_positions(p);
        assert(values == Seq::new(n as nat, |q: int| q as usize));
        if n > 0 {
            lemma_run_lower(t[x].children@, n - 1);
            assert(t[x].children@[n - 1] < t.len());
        }
        assert(n <= usize::MAX);
        assert(longest_run(values, kept[last]));
        let all = Seq::new(n as nat, |q: int| q as usize);
        assert(increasing_positions(values, all));
        assert(kept.last() == kept[last]);
        lemma_full_run(kept[last], n);
        assert(p.len() == n) by {
            assert(values.len() == p.len());
        }
        lemma_no_unkept_moves(p, links.last().1, kept.last(), n);
        assert(realign(t, t2, m.fwd(), links, kept) =~= Seq::<Action>::empty());
    }
}

/// Two trees with the same nodes, diffed under a mapping that links every
/// node to the node with the same id, get an empty edit script.
pub proof fn lemma_identity_script_empty(
    t1: Seq<Node>,
    t2: Seq<Node>,
    root: int,
    m: Mapping,
    kept: Seq<Seq<usize>>,
)
    requires
        arena_links(t1),
        arena_links(t2),
        t1.len() <= usize::MAX,
        same_shape(t1, t2),
        0 <= root < t1.len(),
        m.wf(),
        m.fits(t1.len(), t2.len()),
        identity_on(t1, m),
        runs_longest(t1, t2, m.fwd(), m.links(), kept),
    ensures
        edit_script(t1, root, t2, root, m, kept) == Seq::<Action>::empty(),
{
    assert(identity_on(t2, m));
    lemma_bfs_in_subtree(t2, root);
    lemma_identity_inserts(t1, t2, root, m, bfs(kids(t2), root));
    assert forall|j: int| 0 <= j < m.links().len() implies (#[trigger] m.links()[j]).0 < t1.len() && m.links()[j].1
        == m.links()[j].0 by {
        let s = m.links()[j].0;
        assert(m.fwd().contains_key(s) && m.fwd()[s] == m.links()[j].1);
        assert(s < t1.len());
        assert(m.fwd()[s] == s);
    }
    lemma_identity_realign(t1, t2, m, m.links(), kept);
    assert(drop_repeat_moves(Seq::<Action>::empty() + Seq::<Action>::empty()) =~= Seq::<Action>::empty()) by {
        assert(Seq::<Action>::empty() + Seq::<Action>::empty() =~= Seq::<Action>::empty());
    }
    lemma_preorder_members(t1, root);
    assert forall|j: int| 0 <= j < preorder(kids(t1), root).len() implies #[trigger] preorder(kids(t1), root)[j] < t1.len() by {
        lemma_in_subtree_ge(parents(t1), root, preorder(kids(t1), root)[j] as int);
    }
    lemma_identity_deletes(t1, m, preorder(kids(t1), root));
    assert(edit_script(t1, root, t2, root, m, kept) =~= Seq::<Action>::empty());
}

/// Every action kept by [`drop_repeat_moves`] comes from its input, at an
/// index no smaller than where it ends up.
pub proof fn lemma_drop_repeat_moves_from(acts: Seq<Action>)
    ensures
        drop_repeat_moves(acts).len() <= acts.len(),
        forall|i: int|
            #![trigger drop_repeat_moves(acts)[i]]
            0 <= i < drop_repeat_moves(acts).len() ==> exists|j: int|
                #![trigger acts[j]]
                i <= j < acts.len() && drop_repeat_moves(acts)[i] == acts[j],
    decreases acts.len(),
{
    if acts.len() > 0 {
        let prev = drop_repeat_moves(acts.drop_last());
        lemma_drop_repeat_moves_from(acts.drop_last());
        assert forall|i: int| #![trigger drop_repeat_moves(acts)[i]] 0 <= i < drop_repeat_moves(acts).len() implies exists|j: int|
            #![trigger acts[j]]
            i <= j < acts.len() && drop_repeat_moves(acts)[i] == acts[j] by {
            if i < prev.len() {
                assert(drop_repeat_moves(acts)[i] == prev[i]);
                assert(prev[i] == prev[i]);
                let j = choose|j: int| #![trigger acts.drop_last()[j]] i <= j < acts.drop_last().len() && prev[i] == acts.drop_last()[j];
                assert(acts.drop_last()[j] == acts[j]);
            } else {
                assert(drop_repeat_moves(acts)[i] == acts.last());
                assert(acts.last() == acts[acts.len() - 1]);
            }
        }
    }
}

/// The node an action moves, if it is a move.
pub open spec fn moved(a: Action) -> Option<usize> {
    match a {
        Action::MoveTree { node, .. } => Some(node),
        _ => None,
    }
}

/// No node is moved twice by a script with repeated moves dropped.
pub proof fn lemma_drop_repeat_moves_unique(acts: Seq<Action>)
    ensures
        forall|i: int, j: int|
            0 <= i < j < drop_repeat_moves(acts).len() && #[trigger] moved(drop_repeat_moves(acts)[i])
                is Some ==> moved(drop_repeat_moves(acts)[i]) != #[trigger] moved(drop_repeat_moves(acts)[j]),
    decreases acts.len(),
{
    if acts.len() > 0 {
        let prev = drop_repeat_moves(acts.drop_last());
        let cur = drop_repeat_moves(acts);
        lemma_drop_repeat_moves_unique(acts.drop_last());
        lemma_drop_repeat_moves_from(acts.drop_last());
        assert forall|i: int, j: int|
            0 <= i < j < cur.len() && #[trigger] moved(cur[i]) is Some implies moved(cur[i])
            != #[trigger] moved(cur[j]) by {
            if j < prev.len() {
                assert(cur[i] == prev[i] && cur[j] == prev[j]);
            } else {
                assert(cur[j] == acts.last());
                assert(cur[i] == prev[i]);
                if moved(cur[j]) == moved(cur[i]) {
                    let n = moved(cur[i]).unwrap();
                    let k = choose|k: int| #![trigger acts.drop_last()[k]] i <= k < acts.drop_last().len() && prev[i] == acts.drop_last()[k];
                    assert(acts.drop_last()[k] == acts[k]);
                    assert(moves_node(acts[k], n));
                }
            }
        }
    }
}

/// Deletes never move anything.
pub proof fn lemma_deletes_do_not_move(t1: Seq<Node>, fwd: Map<usize, usize>, order: Seq<usize>)
    ensures
        forall|i: int|
            0 <= i < script_deletes(t1, fwd, order).len() ==> #[trigger] moved(
                script_deletes(t1, fwd, order)[i],
            ) is None,
    decreases order.len(),
{
    if order.len() > 0 {
        lemma_deletes_do_not_move(t1, fwd, order.drop_last());
        let prev = script_deletes(t1, fwd, order.drop_last());
        let here = src_actions(t1, fwd, order.last() as int);
        assert forall|i: int| 0 <= i < (prev + here).len() implies #[trigger] moved((prev + here)[i]) is None by {
            if i < prev.len() {
                assert((prev + here)[i] == prev[i]);
            } else {
                assert((prev + here)[i] == here[i - prev.len()]);
            }
        }
    }
}

/// The edit script moves each node at most once.
pub proof fn lemma_script_moves_once(
    t1: Seq<Node>,
    root1: int,
    t2: Seq<Node>,
    root2: int,
    m: Mapping,
    kept: Seq<Seq<usize>>,
)
    ensures
        forall|i: int, j: int|
            0 <= i < j < edit_script(t1, root1, t2, root2, m, kept).len() && #[trigger] moved(
                edit_script(t1, root1, t2, root2, m, kept)[i],
            ) is Some ==> moved(edit_script(t1, root1, t2, root2, m, kept)[i]) != #[trigger] moved(
                edit_script(t1, root1, t2, root2, m, kept)[j],
            ),
{
    let raw = script_inserts(t1, t2, root2, m.bwd(), bfs(kids(t2), root2)) + realign(
        t1,
        t2,
        m.fwd(),
        m.links(),
        kept,
    );
    let head = drop_repeat_moves(raw);
    let tail = script_deletes(t1, m.fwd(), preorder(kids(t1), root1));
    let script = edit_script(t1, root1, t2, root2, m, kept);
    assert(script == head + tail);
    lemma_drop_repeat_moves_unique(raw);
    lemma_deletes_do_not_move(t1, m.fwd(), preorder(kids(t1), root1));
    assert forall|i: int, j: int| 0 <= i < j < script.len() && #[trigger] moved(script[i]) is Some implies moved(
        script[i],
    ) != #[trigger] moved(script[j]) by {
        if j < head.len() {
            assert(script[i] == head[i] && script[j] == head[j]);
        } else {
            assert(script[j] == tail[j - head.len()]);
            assert(moved(script[j]) is None);
        }
    }
}

/// An action the mapping accounts for: inserts name unmapped destination
/// nodes and deletes unmapped source nodes, a whole-tree insert or delete
/// exactly when nothing below the node is mapped either; an update names a
/// mapped source
/// node whose label differs from its counterpart's and carries that label;
/// a move places a mapped source node under its counterpart's parent.
pub open spec fn justified(a: Action, t1: Seq<Node>, t2: Seq<Node>, m: Mapping) -> bool {
    match a {
        Action::InsertTree { node, .. } => !m.bwd().contains_key(node) && clear_subtree(
            parents(t2),
            m.bwd().dom(),
            node as int,
        ),
        Action::InsertNode { node, .. } => !m.bwd().contains_key(node) && !clear_subtree(
            parents(t2),
            m.bwd().dom(),
            node as int,
        ),
        Action::DeleteTree { node } => !m.fwd().contains_key(node) && clear_subtree(
            parents(t1),
            m.fwd().dom(),
            node as int,
        ),
        Action::DeleteNode { node } => !m.fwd().contains_key(node) && !clear_subtree(
            parents(t1),
            m.fwd().dom(),
            node as int,
        ),
        Action::Update { node, new_label } => {
            &&& m.fwd().contains_key(node)
            &&& new_label@ == t2[m.fwd()[node] as int].label@
            &&& t1[node as int].label@ != new_label@
        },
        Action::MoveTree { node, parent, .. } => {
            &&& m.fwd().contains_key(node)
            &&& t2[m.fwd()[node] as int].parent == Some(parent)
        },
    }
}

/// Every action of `acts` is justified.
pub open spec fn all_justified(acts: Seq<Action>, t1: Seq<Node>, t2: Seq<Node>, m: Mapping) -> bool {
    forall|i: int| 0 <= i < acts.len() ==> justified(#[trigger] acts[i], t1, t2, m)
}

proof fn lemma_concat_justified(a: Seq<Action>, b: Seq<Action>, t1: Seq<Node>, t2: Seq<Node>, m: Mapping)
    requires
        all_justified(a, t1, t2, m),
        all_justified(b, t1, t2, m),
    ensures
        all_justified(a + b, t1, t2, m),
{
    assert forall|i: int| 0 <= i < (a + b).len() implies justified(#[trigger] (a + b)[i], t1, t2, m) by {
        if i < a.len() {
            assert((a + b)[i] == a[i]);
        } else {
            assert((a + b)[i] == b[i - a.len()]);
        }
    }
}

proof fn lemma_inserts_justified(t1: Seq<Node>, t2: Seq<Node>, root2: int, m: Mapping, order: Seq<usize>)
    requires
        m.wf(),
        forall|j: int| 0 <= j < order.len() ==> in_subtree(parents(t2), root2, #[trigger] order[j] as int),
    ensures
        all_justified(script_inserts(t1, t2, root2, m.bwd(), order), t1, t2, m),
    decreases order.len(),
{
    if order.len() > 0 {
        lemma_inserts_justified(t1, t2, root2, m, order.drop_last());
        let d = order.last() as int;
        let here = dst_actions(t1, t2, root2, m.bwd(), d);
        assert(in_subtree(parents(t2), root2, order[order.len() - 1] as int));
        if m.bwd().contains_key(d as usize) {
            let s = m.bwd()[d as usize];
            crate::mapping::lemma_lookup_symmetric(m, s, d as usize);
        }
        if d != root2 {
            assert(parents(t2)[d] == t2[d].parent);
            assert(t2[d].parent is Some);
        }
        assert(all_justified(here, t1, t2, m));
        lemma_concat_justified(script_inserts(t1, t2, root2, m.bwd(), order.drop_last()), here, t1, t2, m);
    }
}

proof fn lemma_deletes_justified(t1: Seq<Node>, t2: Seq<Node>, m: Mapping, order: Seq<usize>)
    ensures
        all_justified(script_deletes(t1, m.fwd(), order), t1, t2, m),
    decreases order.len(),
{
    if order.len() > 0 {
        lemma_deletes_justified(t1, t2, m, order.drop_last());
        let here = src_actions(t1, m.fwd(), order.last() as int);
        assert(all_justified(here, t1, t2, m));
        lemma_concat_justified(script_deletes(t1, m.fwd(), order.drop_last()), here, t1, t2, m);
    }
}

proof fn lemma_paired_children_images(t1: Seq<Node>, t2: Seq<Node>, fwd: Map<usize, usize>, s: int, d: int, k: int)
    ensures
        forall|i: int|
            0 <= i < paired_children(t1, t2, fwd, s, d, k).len() ==> fwd.contains_key(
                (#[trigger] paired_children(t1, t2, fwd, s, d, k)[i]).0,
            ) && t2[fwd[paired_children(t1, t2, fwd, s, d, k)[i].0] as int].parent == Some(d as usize),
    decreases k,
{
    if k > 0 {
        lemma_paired_children_images(t1, t2, fwd, s, d, k - 1);
        let prev = paired_children(t1, t2, fwd, s, d, k - 1);
        let now = paired_children(t1, t2, fwd, s, d, k);
        assert forall|i: int| 0 <= i < now.len() implies fwd.contains_key((#[trigger] now[i]).0) && t2[fwd[now[i].0] as int].parent
            == Some(d as usize) by {
            if i < prev.len() {
                assert(now[i] == prev[i]);
            }
        }
    }
}

proof fn lemma_unkept_justified(
    t1: Seq<Node>,
    t2: Seq<Node>,
    m: Mapping,
    p: Seq<(usize, usize)>,
    d: usize,
    kept: Seq<usize>,
    n: int,
)
    requires
        n <= p.len(),
        forall|i: int|
            0 <= i < p.len() ==> m.fwd().contains_key((#[trigger] p[i]).0) && t2[m.fwd()[p[i].0] as int].parent
                == Some(d),
    ensures
        all_justified(unkept_moves(p, d, kept, n), t1, t2, m),
    decreases n,
{
    if n > 0 {
        lemma_unkept_justified(t1, t2, m, p, d, kept, n - 1);
        let here: Seq<Action> = if kept.contains((n - 1) as usize) {
            seq![]
        } else {
            seq![Action::MoveTree { node: p[n - 1].0, parent: d, position: p[n - 1].1 }]
        };
        assert(all_justified(here, t1, t2, m));
        lemma_concat_justified(unkept_moves(p, d, kept, n - 1), here, t1, t2, m);
    }
}

proof fn lemma_realign_justified(t1: Seq<Node>, t2: Seq<Node>, m: Mapping, links: Seq<(usize, usize)>, kept: Seq<Seq<usize>>)
    ensures
        all_justified(realign(t1, t2, m.fwd(), links, kept), t1, t2, m),
    decreases links.len(),
{
    if links.len() > 0 {
        lemma_realign_justified(t1, t2, m, links.drop_last(), kept.drop_last());
        let s = links.last().0 as int;
        let d = links.last().1;
        let p = pairing(t1, t2, m.fwd(), s, d as int);
        lemma_paired_children_images(t1, t2, m.fwd(), s, d as int, t1[s].children@.len() as int);
        lemma_unkept_justified(t1, t2, m, p, d, kept.last(), p.len() as int);
        lemma_concat_justified(
            realign(t1, t2, m.fwd(), links.drop_last(), kept.drop_last()),
            unkept_moves(p, d, kept.last(), p.len() as int),
            t1,
            t2,
            m,
        );
    }
}

/// Law: every action of the edit script is accounted for by the mapping:
/// inserts name unmapped destination nodes, deletes unmapped source nodes,
/// an update a mapped node whose label differs from its counterpart's (and
/// carries that label), and a move a mapped node placed under its
/// counterpart's parent.
pub proof fn lemma_script_justified(
    t1: Seq<Node>,
    root1: int,
    t2: Seq<Node>,
    root2: int,
    m: Mapping,
    kept: Seq<Seq<usize>>,
)
    requires
        m.wf(),
        arena_links(t2),
        t2.len() <= usize::MAX,
        0 <= root2 < t2.len(),
    ensures
        all_justified(edit_script(t1, root1, t2, root2, m, kept), t1, t2, m),
{
    lemma_bfs_in_subtree(t2, root2);
    let raw = script_inserts(t1, t2, root2, m.bwd(), bfs(kids(t2), root2)) + realign(
        t1,
        t2,
        m.fwd(),
        m.links(),
        kept,
    );
    lemma_inserts_justified(t1, t2, root2, m, bfs(kids(t2), root2));
    lemma_realign_justified(t1, t2, m, m.links(), kept);
    lemma_concat_justified(
        script_inserts(t1, t2, root2, m.bwd(), bfs(kids(t2), root2)),
        realign(t1, t2, m.fwd(), m.links(), kept),
        t1,
        t2,
        m,
    );
    let head = drop_repeat_moves(raw);
    lemma_drop_repeat_moves_from(raw);
    assert forall|i: int| 0 <= i < head.len() implies justified(#[trigger] head[i], t1, t2, m) by {
        let j = choose|j: int| #![trigger raw[j]] i <= j < raw.len() && head[i] == raw[j];
        assert(justified(raw[j], t1, t2, m));
    }
    lemma_deletes_justified(t1, t2, m, preorder(kids(t1), root1));
    lemma_concat_justified(head, script_deletes(t1, m.fwd(), preorder(kids(t1), root1)), t1, t2, m);
}

/// The action deletes source node `s`: itself, or a whole subtree above it.
pub open spec fn deletes_node(a: Action, t1: Seq<Node>, s: int) -> bool {
    match a {
        Action::DeleteNode { node } => node == s,
        Action::DeleteTree { node } => in_subtree(parents(t1), node as int, s),
        _ => false,
    }
}

/// The action inserts destination node `d`: itself, or a whole subtree
/// above it.
pub open spec fn inserts_node(a: Action, t2: Seq<Node>, d: int) -> bool {
    match a {
        Action::InsertNode { node, .. } => node == d,
        Action::InsertTree { node, .. } => in_subtree(parents(t2), node as int, d),
        _ => false,
    }
}

/// What a step of a walk emits ends up in the whole walk's deletes.
proof fn lemma_deletes_contain(t1: Seq<Node>, fwd: Map<usize, usize>, order: Seq<usize>, j: int, a: Action)
    requires
        0 <= j < order.len(),
        src_actions(t1, fwd, order[j] as int).contains(a),
    ensures
        script_deletes(t1, fwd, order).contains(a),
    decreases order.len(),
{
    let prev = script_deletes(t1, fwd, order.drop_last());
    let here = src_actions(t1, fwd, order.last() as int);
    assert(script_deletes(t1, fwd, order) == prev + here);
    if j == order.len() - 1 {
        let q = choose|q: int| 0 <= q < here.len() && here[q] == a;
        assert((prev + here)[prev.len() + q] == a);
    } else {
        assert(order.drop_last()[j] == order[j]);
        lemma_deletes_contain(t1, fwd, order.drop_last(), j, a);
        let q = choose|q: int| 0 <= q < prev.len() && prev[q] == a;
        assert((prev + here)[q] == a);
    }
}

/// What a step of a walk emits ends up in the whole walk's inserts.
proof fn lemma_inserts_contain(
    t1: Seq<Node>,
    t2: Seq<Node>,
    root2: int,
    bwd: Map<usize, usize>,
    order: Seq<usize>,
    j: int,
    a: Action,
)
    requires
        0 <= j < order.len(),
        dst_actions(t1, t2, root2, bwd, order[j] as int).contains(a),
    ensures
        script_inserts(t1, t2, root2, bwd, order).contains(a),
    decreases order.len(),
{
    let prev = script_inserts(t1, t2, root2, bwd, order.drop_last());
    let here = dst_actions(t1, t2, root2, bwd, order.last() as int);
    assert(script_inserts(t1, t2, root2, bwd, order) == prev + here);
    if j == order.len() - 1 {
        let q = choose|q: int| 0 <= q < here.len() && here[q] == a;
        assert((prev + here)[prev.len() + q] == a);
    } else {
        assert(order.drop_last()[j] == order[j]);
        lemma_inserts_contain(t1, t2, root2, bwd, order.drop_last(), j, a);
        let q = choose|q: int| 0 <= q < prev.len() && prev[q] == a;
        assert((prev + here)[q] == a);
    }
}

/// Dropping repeated moves keeps every action that is not a move.
proof fn lemma_drop_repeat_keeps(acts: Seq<Action>, a: Action)
    requires
        acts.contains(a),
        moved(a) is None,
    ensures
        drop_repeat_moves(acts).contains(a),
    decreases acts.len(),
{
    let prev = drop_repeat_moves(acts.drop_last());
    if acts.last() == a {
        assert(drop_repeat_moves(acts) == prev.push(a));
        assert(prev.push(a)[prev.len() as int] == a);
    } else {
        let j = choose|j: int| 0 <= j < acts.len() && acts[j] == a;
        assert(acts.drop_last()[j] == a);
        lemma_drop_repeat_keeps(acts.drop_last(), a);
        let q = choose|q: int| 0 <= q < prev.len() && prev[q] == a;
        let last = acts.last();
        match last {
            Action::MoveTree { node, .. } => {
                if exists|k: int| 0 <= k < acts.len() - 1 && #[trigger] moves_node(acts[k], node) {
                    assert(drop_repeat_moves(acts) == prev);
                } else {
                    assert(drop_repeat_moves(acts) == prev.push(last));
                    assert(prev.push(last)[q] == a);
                }
            },
            _ => {
                assert(drop_repeat_moves(acts) == prev.push(last));
                assert(prev.push(last)[q] == a);
            },
        }
    }
}

/// Under the root, every clear subtree lies within one deleted subtree.
proof fn lemma_clear_deleted(t1: Seq<Node>, root1: int, fwd: Map<usize, usize>, x: int)
    requires
        arena_links(t1),
        t1.len() <= usize::MAX,
        0 <= root1 < t1.len(),
        t1[root1].parent is None,
        in_subtree(parents(t1), root1, x),
        clear_subtree(parents(t1), fwd.dom(), x),
    ensures
        exists|a: usize|
            #[trigger] script_deletes(t1, fwd, preorder(kids(t1), root1)).contains(Action::DeleteTree { node: a })
                && in_subtree(parents(t1), a as int, x),
    decreases x,
{
    let par = parents(t1);
    let order = preorder(kids(t1), root1);
    lemma_in_subtree_ge(par, root1, x);
    if under_clear(par, fwd.dom(), -1, x) {
        let a = choose|a: int| a != x && a != -1 && #[trigger] in_subtree(par, a, x) && clear_subtree(par, fwd.dom(), a);
        lemma_in_subtree_ge(par, a, x);
        lemma_above_root(par, root1, a, x);
        lemma_clear_deleted(t1, root1, fwd, a);
        let b = choose|b: usize|
            #[trigger] script_deletes(t1, fwd, order).contains(Action::DeleteTree { node: b }) && in_subtree(par, b as int, a);
        crate::tree::lemma_in_subtree_trans(par, b as int, a, x);
    } else {
        assert(in_subtree(par, x, x));
        assert(!fwd.dom().contains(x as usize));
        lemma_preorder_complete(t1, root1, x);
        let j = choose|j: int| 0 <= j < order.len() && order[j] == x as usize;
        assert(src_actions(t1, fwd, x) == seq![Action::DeleteTree { node: x as usize }]);
        assert(src_actions(t1, fwd, order[j] as int)[0] == Action::DeleteTree { node: x as usize });
        lemma_deletes_contain(t1, fwd, order, j, Action::DeleteTree { node: x as usize });
    }
}

/// An ancestor of a node under a parentless root is under that root.
proof fn lemma_above_root(par: Seq<Option<usize>>, root: int, a: int, x: int)
    requires
        0 <= root < par.len(),
        par[root] is None,
        in_subtree(par, root, x),
        in_subtree(par, a, x),
    ensures
        in_subtree(par, root, a),
{
    lemma_in_subtree_ge(par, a, x);
    if a <= root {
        lemma_ancestors_ordered(par, a, root, x);
        if a != root {
            assert(par[root] is Some);
        }
    } else {
        lemma_ancestors_ordered(par, root, a, x);
    }
}

/// Under the root, every clear subtree other than the root lies within one
/// inserted subtree.
proof fn lemma_clear_inserted(t1: Seq<Node>, t2: Seq<Node>, root2: int, bwd: Map<usize, usize>, x: int)
    requires
        arena_links(t2),
        t2.len() <= usize::MAX,
        0 <= root2 < t2.len(),
        t2[root2].parent is None,
        in_subtree(parents(t2), root2, x),
        x != root2,
        clear_subtree(parents(t2), bwd.dom(), x),
    ensures
        exists|a: usize, p: usize, k: usize|
            #[trigger] script_inserts(t1, t2, root2, bwd, bfs(kids(t2), root2)).contains(
                Action::InsertTree { node: a, parent: p, position: k },
            ) && in_subtree(parents(t2), a as int, x),
    decreases x,
{
    let par = parents(t2);
    let order = bfs(kids(t2), root2);
    lemma_in_subtree_ge(par, root2, x);
    if under_clear(par, bwd.dom(), root2, x) {
        let a = choose|a: int| a != x && a != root2 && #[trigger] in_subtree(par, a, x) && clear_subtree(par, bwd.dom(), a);
        lemma_in_subtree_ge(par, a, x);
        lemma_above_root(par, root2, a, x);
        lemma_clear_inserted(t1, t2, root2, bwd, a);
        let (b, p, k) = choose|b: usize, p: usize, k: usize|
            #[trigger] script_inserts(t1, t2, root2, bwd, order).contains(Action::InsertTree { node: b, parent: p, position: k })
                && in_subtree(par, b as int, a);
        crate::tree::lemma_in_subtree_trans(par, b as int, a, x);
    } else {
        assert(in_subtree(par, x, x));
        assert(!bwd.dom().contains(x as usize));
        lemma_bfs_complete(t2, root2, x);
        let j = choose|j: int| 0 <= j < order.len() && order[j] == x as usize;
        let p = t2[x].parent.unwrap();
        let k = position_of(t2, x);
        let act = Action::InsertTree { node: x as usize, parent: p, position: k };
        assert(dst_actions(t1, t2, root2, bwd, x) == seq![act]);
        assert(dst_actions(t1, t2, root2, bwd, order[j] as int)[0] == act);
        lemma_inserts_contain(t1, t2, root2, bwd, order, j, act);
    }
}

/// Law: the edit script deletes every unmapped source node under the root,
/// either on its own or within a deleted subtree.
pub proof fn lemma_script_deletes_unmapped(
    t1: Seq<Node>,
    root1: int,
    t2: Seq<Node>,
    root2: int,
    m: Mapping,
    kept: Seq<Seq<usize>>,
    s: int,
)
    requires
        arena_links(t1),
        t1.len() <= usize::MAX,
        0 <= root1 < t1.len(),
        t1[root1].parent is None,
        in_subtree(parents(t1), root1, s),
        !m.fwd().contains_key(s as usize),
    ensures
        exists|i: int|
            0 <= i < edit_script(t1, root1, t2, root2, m, kept).len() && #[trigger] deletes_node(
                edit_script(t1, root1, t2, root2, m, kept)[i],
                t1,
                s,
            ),
{
    let par = parents(t1);
    let fwd = m.fwd();
    let order = preorder(kids(t1), root1);
    let raw = script_inserts(t1, t2, root2, m.bwd(), bfs(kids(t2), root2)) + realign(
        t1,
        t2,
        m.fwd(),
        m.links(),
        kept,
    );
    let head = drop_repeat_moves(raw);
    let tail = script_deletes(t1, fwd, order);
    let script = edit_script(t1, root1, t2, root2, m, kept);
    assert(script == head + tail);
    lemma_in_subtree_ge(par, root1, s);
    let act = if under_clear(par, fwd.dom(), -1, s) {
        let a = choose|a: int| a != s && a != -1 && #[trigger] in_subtree(par, a, s) && clear_subtree(par, fwd.dom(), a);
        lemma_in_subtree_ge(par, a, s);
        lemma_above_root(par, root1, a, s);
        lemma_clear_deleted(t1, root1, fwd, a);
        let b = choose|b: usize| #[trigger] tail.contains(Action::DeleteTree { node: b }) && in_subtree(par, b as int, a);
        crate::tree::lemma_in_subtree_trans(par, b as int, a, s);
        Action::DeleteTree { node: b }
    } else {
        lemma_preorder_complete(t1, root1, s);
        let j = choose|j: int| 0 <= j < order.len() && order[j] == s as usize;
        let here = src_actions(t1, fwd, s);
        assert(here.len() == 1);
        assert(src_actions(t1, fwd, order[j] as int)[0] == here[0]);
        lemma_deletes_contain(t1, fwd, order, j, here[0]);
        if clear_subtree(par, fwd.dom(), s) {
            assert(in_subtree(par, s, s));
        }
        here[0]
    };
    assert(tail.contains(act) && deletes_node(act, t1, s));
    let q = choose|q: int| 0 <= q < tail.len() && tail[q] == act;
    assert(script[head.len() + q] == act);
}

/// Law: the edit script inserts every unmapped destination node under the
/// root (the root itself excepted), either on its own or within an inserted
/// subtree.
pub proof fn lemma_script_inserts_unmapped(
    t1: Seq<Node>,
    root1: int,
    t2: Seq<Node>,
    root2: int,
    m: Mapping,
    kept: Seq<Seq<usize>>,
    d: int,
)
    requires
        arena_links(t2),
        t2.len() <= usize::MAX,
        0 <= root2 < t2.len(),
        t2[root2].parent is None,
        in_subtree(parents(t2), root2, d),
        d != root2,
        !m.bwd().contains_key(d as usize),
    ensures
        exists|i: int|
            0 <= i < edit_script(t1, root1, t2, root2, m, kept).len() && #[trigger] inserts_node(
                edit_script(t1, root1, t2, root2, m, kept)[i],
                t2,
                d,
            ),
{
    let par = parents(t2);
    let bwd = m.bwd();
    let order = bfs(kids(t2), root2);
    let ins = script_inserts(t1, t2, root2, bwd, order);
    let raw = ins + realign(t1, t2, m.fwd(), m.links(), kept);
    let head = drop_repeat_moves(raw);
    let tail = script_deletes(t1, m.fwd(), preorder(kids(t1), root1));
    let script = edit_script(t1, root1, t2, root2, m, kept);
    assert(script == head + tail);
    lemma_in_subtree_ge(par, root2, d);
    let act = if under_clear(par, bwd.dom(), root2, d) {
        let a = choose|a: int| a != d && a != root2 && #[trigger] in_subtree(par, a, d) && clear_subtree(par, bwd.dom(), a);
        lemma_in_subtree_ge(par, a, d);
        lemma_above_root(par, root2, a, d);
        lemma_clear_inserted(t1, t2, root2, bwd, a);
        let (b, p, k) = choose|b: usize, p: usize, k: usize|
            #[trigger] ins.contains(Action::InsertTree { node: b, parent: p, position: k }) && in_subtree(par, b as int, a);
        crate::tree::lemma_in_subtree_trans(par, b as int, a, d);
        Action::InsertTree { node: b, parent: p, position: k }
    } else {
        lemma_bfs_complete(t2, root2, d);
        let j = choose|j: int| 0 <= j < order.len() && order[j] == d as usize;
        let here = dst_actions(t1, t2, root2, bwd, d);
        assert(here.len() == 1);
        assert(dst_actions(t1, t2, root2, bwd, order[j] as int)[0] == here[0]);
        lemma_inserts_contain(t1, t2, root2, bwd, order, j, here[0]);
        if clear_subtree(par, bwd.dom(), d) {
            assert(in_subtree(par, d, d));
        }
        here[0]
    };
    assert(ins.contains(act) && inserts_node(act, t2, d));
    assert(raw.contains(act)) by {
        let q = choose|q: int| 0 <= q < ins.len() && ins[q] == act;
        assert(raw[q] == act);
    }
    lemma_drop_repeat_keeps(raw, act);
    let q = choose|q: int| 0 <= q < head.len() && head[q] == act;
    assert(script[q] == act);
}

// ---------------------------------------------------------------------------
// Each unmapped source node is deleted once, and deletes come last.
// ---------------------------------------------------------------------------

/// How many actions of `acts` satisfy `f`.
pub open spec fn count_where(acts: Seq<Action>, f: spec_fn(Action) -> bool) -> nat
    decreases acts.len(),
{
    if acts.len() == 0 {
        0
    } else {
        count_where(acts.drop_last(), f) + if f(acts.last()) {
            1nat
        } else {
            0nat
        }
    }
}

/// The action deletes something.
pub open spec fn is_delete(a: Action) -> bool {
    a is DeleteTree || a is DeleteNode
}

proof fn lemma_count_concat(a: Seq<Action>, b: Seq<Action>, f: spec_fn(Action) -> bool)
    ensures
        count_where(a + b, f) == count_where(a, f) + count_where(b, f),
    decreases b.len(),
{
    if b.len() == 0 {
        assert(a + b =~= a);
    } else {
        lemma_count_concat(a, b.drop_last(), f);
        assert((a + b).drop_last() =~= a + b.drop_last());
        assert((a + b).last() == b.last());
    }
}

/// The count of no action, and of one.
proof fn lemma_count_small(a: Action, f: spec_fn(Action) -> bool)
    ensures
        count_where(Seq::<Action>::empty(), f) == 0,
        count_where(seq![a], f) == if f(a) {
            1nat
        } else {
            0nat
        },
{
    assert(seq![a].drop_last() =~= Seq::<Action>::empty());
    assert(seq![a].last() == a);
}

/// A count of at most one leaves room for one satisfying action only.
proof fn lemma_count_index(acts: Seq<Action>, f: spec_fn(Action) -> bool, i: int, j: int)
    requires
        count_where(acts, f) <= 1,
        0 <= i < j < acts.len(),
    ensures
        !(f(acts[i]) && f(acts[j])),
    decreases acts.len(),
{
    let prev = acts.drop_last();
    if f(acts[i]) && f(acts[j]) {
        if j == acts.len() - 1 {
            assert(prev[i] == acts[i]);
            lemma_count_has(prev, f, i);
        } else {
            assert(prev[i] == acts[i] && prev[j] == acts[j]);
            lemma_count_index(prev, f, i, j);
        }
    }
}

/// A satisfying action makes the count positive.
proof fn lemma_count_has(acts: Seq<Action>, f: spec_fn(Action) -> bool, i: int)
    requires
        0 <= i < acts.len(),
        f(acts[i]),
    ensures
        count_where(acts, f) >= 1,
    decreases acts.len(),
{
    if i < acts.len() - 1 {
        assert(acts.drop_last()[i] == acts[i]);
        lemma_count_has(acts.drop_last(), f, i);
    }
}

/// Dropping repeated moves keeps every action that is no move.
proof fn lemma_count_drop_moves(acts: Seq<Action>, f: spec_fn(Action) -> bool)
    requires
        forall|a: Action| #[trigger] f(a) ==> !(a is MoveTree),
    ensures
        count_where(drop_repeat_moves(acts), f) == count_where(acts, f),
    decreases acts.len(),
{
    if acts.len() > 0 {
        lemma_count_drop_moves(acts.drop_last(), f);
        let prev = drop_repeat_moves(acts.drop_last());
        assert(prev.push(acts.last()).drop_last() =~= prev);
    }
}

/// The re-alignment moves hold nothing but moves.
proof fn lemma_count_realign(
    t1: Seq<Node>,
    t2: Seq<Node>,
    fwd: Map<usize, usize>,
    links: Seq<(usize, usize)>,
    kept: Seq<Seq<usize>>,
    f: spec_fn(Action) -> bool,
)
    requires
        forall|a: Action| #[trigger] f(a) ==> !(a is MoveTree),
    ensures
        count_where(realign(t1, t2, fwd, links, kept), f) == 0,
    decreases links.len(),
{
    if links.len() > 0 {
        lemma_count_realign(t1, t2, fwd, links.drop_last(), kept.drop_last(), f);
        let s = links.last().0 as int;
        let d = links.last().1;
        let p = pairing(t1, t2, fwd, s, d as int);
        lemma_count_unkept(p, d, kept.last(), p.len() as int, f);
        lemma_count_concat(
            realign(t1, t2, fwd, links.drop_last(), kept.drop_last()),
            unkept_moves(p, d, kept.last(), p.len() as int),
            f,
        );
    }
}

proof fn lemma_count_unkept(p: Seq<(usize, usize)>, d: usize, kept: Seq<usize>, n: int, f: spec_fn(Action) -> bool)
    requires
        forall|a: Action| #[trigger] f(a) ==> !(a is MoveTree),
    ensures
        count_where(unkept_moves(p, d, kept, n), f) == 0,
    decreases n,
{
    if n > 0 {
        lemma_count_unkept(p, d, kept, n - 1, f);
        let here: Seq<Action> = if kept.contains((n - 1) as usize) {
            seq![]
        } else {
            seq![Action::MoveTree { node: p[n - 1].0, parent: d, position: p[n - 1].1 }]
        };
        lemma_count_concat(unkept_moves(p, d, kept, n - 1), here, f);
        lemma_count_small(Action::MoveTree { node: p[n - 1].0, parent: d, position: p[n - 1].1 }, f);
    }
}

/// The destination walk emits no delete.
proof fn lemma_count_inserts_no_deletes(
    t1: Seq<Node>,
    t2: Seq<Node>,
    root2: int,
    bwd: Map<usize, usize>,
    order: Seq<usize>,
)
    ensures
        count_where(script_inserts(t1, t2, root2, bwd, order), |a: Action| is_delete(a)) == 0,
    decreases order.len(),
{
    if order.len() > 0 {
        let f = |a: Action| is_delete(a);
        lemma_count_inserts_no_deletes(t1, t2, root2, bwd, order.drop_last());
        let here = dst_actions(t1, t2, root2, bwd, order.last() as int);
        lemma_count_concat(script_inserts(t1, t2, root2, bwd, order.drop_last()), here, f);
        assert(count_where(here, f) == 0) by {
            let d = order.last() as int;
            let par2 = parents(t2);
            if d == root2 {
                if bwd.contains_key(d as usize) && t1[bwd[d as usize] as int].label@ != t2[d].label@ {
                    lemma_count_small(Action::Update { node: bwd[d as usize], new_label: t2[d].label }, f);
                } else {
                    lemma_count_small(Action::Update { node: 0, new_label: t2[d].label }, f);
                }
            } else if under_clear(par2, bwd.dom(), root2, d) {
                lemma_count_small(Action::Update { node: 0, new_label: t2[d].label }, f);
            } else {
                let p = t2[d].parent.unwrap();
                let k = position_of(t2, d);
                if !bwd.contains_key(d as usize) {
                    lemma_count_small(Action::InsertTree { node: d as usize, parent: p, position: k }, f);
                    lemma_count_small(Action::InsertNode { node: d as usize, parent: p, position: k }, f);
                } else {
                    let sn = bwd[d as usize];
                    let upd = Action::Update { node: sn, new_label: t2[d].label };
                    let mv = Action::MoveTree { node: sn, parent: p, position: k };
                    lemma_count_small(upd, f);
                    lemma_count_small(mv, f);
                    let a: Seq<Action> = if t1[sn as int].label@ != t2[d].label@ {
                        seq![upd]
                    } else {
                        seq![]
                    };
                    let b: Seq<Action> = if t1[sn as int].parent != (if bwd.contains_key(p) {
                        Some(bwd[p])
                    } else {
                        None
                    }) {
                        seq![mv]
                    } else {
                        seq![]
                    };
                    assert(here == a + b);
                    lemma_count_concat(a, b, f);
                }
            }
        }
    }
}

/// The source walk emits only deletes.
proof fn lemma_count_deletes_only(t1: Seq<Node>, fwd: Map<usize, usize>, order: Seq<usize>)
    ensures
        count_where(script_deletes(t1, fwd, order), |a: Action| !is_delete(a)) == 0,
    decreases order.len(),
{
    if order.len() > 0 {
        let f = |a: Action| !is_delete(a);
        lemma_count_deletes_only(t1, fwd, order.drop_last());
        let here = src_actions(t1, fwd, order.last() as int);
        lemma_count_concat(script_deletes(t1, fwd, order.drop_last()), here, f);
        let x = order.last() as int;
        lemma_count_small(Action::DeleteTree { node: x as usize }, f);
        lemma_count_small(Action::DeleteNode { node: x as usize }, f);
    }
}

/// Every delete of the edit script comes after every action that is no
/// delete.
pub proof fn lemma_deletes_last(t1: Seq<Node>, root1: int, t2: Seq<Node>, root2: int, m: Mapping, kept: Seq<Seq<usize>>)
    ensures
        forall|i: int, j: int|
            0 <= i < j < edit_script(t1, root1, t2, root2, m, kept).len() && is_delete(
                #[trigger] edit_script(t1, root1, t2, root2, m, kept)[i],
            ) ==> is_delete(#[trigger] edit_script(t1, root1, t2, root2, m, kept)[j]),
{
    let ins = script_inserts(t1, t2, root2, m.bwd(), bfs(kids(t2), root2));
    let re = realign(t1, t2, m.fwd(), m.links(), kept);
    let head = drop_repeat_moves(ins + re);
    let tail = script_deletes(t1, m.fwd(), preorder(kids(t1), root1));
    let script = edit_script(t1, root1, t2, root2, m, kept);
    assert(script == head + tail);
    let del = |a: Action| is_delete(a);
    let nodel = |a: Action| !is_delete(a);
    lemma_count_inserts_no_deletes(t1, t2, root2, m.bwd(), bfs(kids(t2), root2));
    lemma_count_realign(t1, t2, m.fwd(), m.links(), kept, del);
    lemma_count_concat(ins, re, del);
    lemma_count_drop_moves(ins + re, del);
    lemma_count_deletes_only(t1, m.fwd(), preorder(kids(t1), root1));
    assert forall|i: int, j: int|
        0 <= i < j < script.len() && is_delete(#[trigger] script[i]) implies is_delete(#[trigger] script[j]) by {
        if i < head.len() {
            assert(head[i] == script[i]);
            assert(del(head[i]));
            lemma_count_has(head, del, i);
        }
        if j >= head.len() {
            assert(tail[j - head.len()] == script[j]);
            if !is_delete(script[j]) {
                assert(nodel(tail[j - head.len()]));
                lemma_count_has(tail, nodel, j - head.len());
            }
        }
    }
}

/// What node `x`'s step of the source walk does for `s`: it deletes `s`
/// at most once, and only as the topmost unmapped node with nothing
/// mapped below it, or as `s` itself.
proof fn lemma_delete_step(t1: Seq<Node>, fwd: Map<usize, usize>, x: int, s: int)
    requires
        0 <= x < t1.len(),
        t1.len() <= usize::MAX,
    ensures
        count_where(src_actions(t1, fwd, x), |a: Action| deletes_node(a, t1, s)) <= 1,
        count_where(src_actions(t1, fwd, x), |a: Action| deletes_node(a, t1, s)) == 1 ==> {
            &&& in_subtree(parents(t1), x, s)
            &&& !under_clear(parents(t1), fwd.dom(), -1, x)
            &&& (x == s || clear_subtree(parents(t1), fwd.dom(), x))
        },
{
    let f = |a: Action| deletes_node(a, t1, s);
    lemma_count_small(Action::DeleteTree { node: x as usize }, f);
    lemma_count_small(Action::DeleteNode { node: x as usize }, f);
    assert(parents(t1).len() == t1.len());
    if x == s {
        assert(in_subtree(parents(t1), x, x));
    }
}

/// Two different steps never both delete `s`.
proof fn lemma_two_deleters(t1: Seq<Node>, fwd: Map<usize, usize>, x: int, y: int, s: int)
    requires
        arena_links(t1),
        0 <= x < t1.len(),
        0 <= y < t1.len(),
        in_subtree(parents(t1), x, s),
        !under_clear(parents(t1), fwd.dom(), -1, x),
        (x == s || clear_subtree(parents(t1), fwd.dom(), x)),
        in_subtree(parents(t1), y, s),
        !under_clear(parents(t1), fwd.dom(), -1, y),
        (y == s || clear_subtree(parents(t1), fwd.dom(), y)),
    ensures
        x == y,
{
    let par = parents(t1);
    if x == y {
    } else if x < y {
        lemma_ancestors_ordered(par, x, y, s);
        lemma_in_subtree_ge(par, y, s);
        if x == s {
            lemma_in_subtree_ge(par, x, y);
        } else {
            assert(in_subtree(par, x, y) && clear_subtree(par, fwd.dom(), x) && x != y && x != -1);
            assert(under_clear(par, fwd.dom(), -1, y));
        }
    } else {
        lemma_ancestors_ordered(par, y, x, s);
        lemma_in_subtree_ge(par, x, s);
        if y == s {
            lemma_in_subtree_ge(par, y, x);
        } else {
            assert(in_subtree(par, y, x) && clear_subtree(par, fwd.dom(), y) && x != y && y != -1);
            assert(under_clear(par, fwd.dom(), -1, x));
        }
    }
}

/// Along a walk visiting each node once, `s` is deleted at most once.
proof fn lemma_delete_walk(t1: Seq<Node>, fwd: Map<usize, usize>, order: Seq<usize>, s: int)
    requires
        arena_links(t1),
        t1.len() <= usize::MAX,
        order.no_duplicates(),
        forall|j: int| 0 <= j < order.len() ==> #[trigger] order[j] < t1.len(),
    ensures
        count_where(script_deletes(t1, fwd, order), |a: Action| deletes_node(a, t1, s)) <= 1,
        count_where(script_deletes(t1, fwd, order), |a: Action| deletes_node(a, t1, s)) == 1 ==> exists|j: int|
            0 <= j < order.len() && count_where(
                src_actions(t1, fwd, #[trigger] order[j] as int),
                |a: Action| deletes_node(a, t1, s),
            ) == 1,
    decreases order.len(),
{
    if order.len() > 0 {
        let f = |a: Action| deletes_node(a, t1, s);
        let prev = order.drop_last();
        assert forall|j: int| 0 <= j < prev.len() implies #[trigger] prev[j] < t1.len() by {
            assert(prev[j] == order[j]);
        }
        assert(prev.no_duplicates()) by {
            assert forall|i: int, j: int| 0 <= i < prev.len() && 0 <= j < prev.len() && i != j implies prev[i] != prev[j] by {
                assert(prev[i] == order[i] && prev[j] == order[j]);
            }
        }
        lemma_delete_walk(t1, fwd, prev, s);
        let x = order.last() as int;
        assert(order[order.len() - 1] == order.last());
        lemma_delete_step(t1, fwd, x, s);
        lemma_count_concat(script_deletes(t1, fwd, prev), src_actions(t1, fwd, x), f);
        let c_prev = count_where(script_deletes(t1, fwd, prev), f);
        let c_here = count_where(src_actions(t1, fwd, x), f);
        if c_prev == 1 && c_here == 1 {
            let j = choose|j: int| 0 <= j < prev.len() && count_where(src_actions(t1, fwd, #[trigger] prev[j] as int), f) == 1;
            assert(prev[j] == order[j]);
            assert(order[j] != order[order.len() - 1]);
            lemma_delete_step(t1, fwd, prev[j] as int, s);
            lemma_two_deleters(t1, fwd, prev[j] as int, x, s);
        }
        if c_prev == 1 {
            let j = choose|j: int| 0 <= j < prev.len() && count_where(src_actions(t1, fwd, #[trigger] prev[j] as int), f) == 1;
            assert(prev[j] == order[j]);
        }
        if c_here == 1 {
            assert(count_where(src_actions(t1, fwd, order[order.len() - 1] as int), f) == 1);
        }
    }
}

/// The source walk emits nothing but deletes, so nothing that is no delete.
proof fn lemma_count_deletes_none(t1: Seq<Node>, fwd: Map<usize, usize>, order: Seq<usize>, f: spec_fn(Action) -> bool)
    requires
        forall|a: Action| #[trigger] f(a) ==> !is_delete(a),
    ensures
        count_where(script_deletes(t1, fwd, order), f) == 0,
    decreases order.len(),
{
    if order.len() > 0 {
        lemma_count_deletes_none(t1, fwd, order.drop_last(), f);
        let here = src_actions(t1, fwd, order.last() as int);
        lemma_count_concat(script_deletes(t1, fwd, order.drop_last()), here, f);
        let x = order.last() as int;
        lemma_count_small(Action::DeleteTree { node: x as usize }, f);
        lemma_count_small(Action::DeleteNode { node: x as usize }, f);
    }
}

/// What node `x`'s step of the destination walk does for `d`: it inserts
/// `d` at most once, and only as the topmost unmapped node with nothing
/// mapped below it, or as `d` itself; never at the root.
proof fn lemma_insert_step(t1: Seq<Node>, t2: Seq<Node>, root2: int, bwd: Map<usize, usize>, x: int, d: int)
    requires
        0 <= x < t2.len(),
        t2.len() <= usize::MAX,
    ensures
        count_where(dst_actions(t1, t2, root2, bwd, x), |a: Action| inserts_node(a, t2, d)) <= 1,
        count_where(dst_actions(t1, t2, root2, bwd, x), |a: Action| inserts_node(a, t2, d)) == 1 ==> {
            &&& in_subtree(parents(t2), x, d)
            &&& x != root2
            &&& !under_clear(parents(t2), bwd.dom(), root2, x)
            &&& (x == d || clear_subtree(parents(t2), bwd.dom(), x))
        },
{
    let f = |a: Action| inserts_node(a, t2, d);
    let here = dst_actions(t1, t2, root2, bwd, x);
    let par2 = parents(t2);
    assert(par2.len() == t2.len());
    if x == d {
        assert(in_subtree(par2, x, x));
    }
    if x == root2 {
        if bwd.contains_key(x as usize) && t1[bwd[x as usize] as int].label@ != t2[x].label@ {
            lemma_count_small(Action::Update { node: bwd[x as usize], new_label: t2[x].label }, f);
        } else {
            lemma_count_small(Action::Update { node: 0, new_label: t2[x].label }, f);
        }
    } else if under_clear(par2, bwd.dom(), root2, x) {
        lemma_count_small(Action::Update { node: 0, new_label: t2[x].label }, f);
    } else {
        let p = t2[x].parent.unwrap();
        let k = position_of(t2, x);
        if !bwd.contains_key(x as usize) {
            lemma_count_small(Action::InsertTree { node: x as usize, parent: p, position: k }, f);
            lemma_count_small(Action::InsertNode { node: x as usize, parent: p, position: k }, f);
        } else {
            let sn = bwd[x as usize];
            let upd = Action::Update { node: sn, new_label: t2[x].label };
            let mv = Action::MoveTree { node: sn, parent: p, position: k };
            lemma_count_small(upd, f);
            lemma_count_small(mv, f);
            let a: Seq<Action> = if t1[sn as int].label@ != t2[x].label@ {
                seq![upd]
            } else {
                seq![]
            };
            let b: Seq<Action> = if t1[sn as int].parent != (if bwd.contains_key(p) {
                Some(bwd[p])
            } else {
                None
            }) {
                seq![mv]
            } else {
                seq![]
            };
            assert(here == a + b);
            lemma_count_concat(a, b, f);
        }
    }
}

/// Two different steps never both insert `d`.
proof fn lemma_two_inserters(t2: Seq<Node>, bwd: Map<usize, usize>, root2: int, x: int, y: int, d: int)
    requires
        arena_links(t2),
        0 <= x < t2.len(),
        0 <= y < t2.len(),
        in_subtree(parents(t2), x, d),
        x != root2,
        !under_clear(parents(t2), bwd.dom(), root2, x),
        (x == d || clear_subtree(parents(t2), bwd.dom(), x)),
        in_subtree(parents(t2), y, d),
        y != root2,
        !under_clear(parents(t2), bwd.dom(), root2, y),
        (y == d || clear_subtree(parents(t2), bwd.dom(), y)),
    ensures
        x == y,
{
    let par = parents(t2);
    if x == y {
    } else if x < y {
        lemma_ancestors_ordered(par, x, y, d);
        lemma_in_subtree_ge(par, y, d);
        if x == d {
            lemma_in_subtree_ge(par, x, y);
        } else {
            assert(in_subtree(par, x, y) && clear_subtree(par, bwd.dom(), x) && x != y && x != root2);
            assert(under_clear(par, bwd.dom(), root2, y));
        }
    } else {
        lemma_ancestors_ordered(par, y, x, d);
        lemma_in_subtree_ge(par, x, d);
        if y == d {
            lemma_in_subtree_ge(par, y, x);
        } else {
            assert(in_subtree(par, y, x) && clear_subtree(par, bwd.dom(), y) && x != y && y != root2);
            assert(under_clear(par, bwd.dom(), root2, x));
        }
    }
}

/// Along a walk visiting each node once, `d` is inserted at most once.
proof fn lemma_insert_walk(t1: Seq<Node>, t2: Seq<Node>, root2: int, bwd: Map<usize, usize>, order: Seq<usize>, d: int)
    requires
        arena_links(t2),
        t2.len() <= usize::MAX,
        order.no_duplicates(),
        forall|j: int| 0 <= j < order.len() ==> #[trigger] order[j] < t2.len(),
    ensures
        count_where(script_inserts(t1, t2, root2, bwd, order), |a: Action| inserts_node(a, t2, d)) <= 1,
        count_where(script_inserts(t1, t2, root2, bwd, order), |a: Action| inserts_node(a, t2, d)) == 1 ==> exists|j: int|
            0 <= j < order.len() && count_where(
                dst_actions(t1, t2, root2, bwd, #[trigger] order[j] as int),
                |a: Action| inserts_node(a, t2, d),
            ) == 1,
    decreases order.len(),
{
    if order.len() > 0 {
        let f = |a: Action| inserts_node(a, t2, d);
        let prev = order.drop_last();
        assert forall|j: int| 0 <= j < prev.len() implies #[trigger] prev[j] < t2.len() by {
            assert(prev[j] == order[j]);
        }
        assert(prev.no_duplicates()) by {
            assert forall|i: int, j: int| 0 <= i < prev.len() && 0 <= j < prev.len() && i != j implies prev[i] != prev[j] by {
                assert(prev[i] == order[i] && prev[j] == order[j]);
            }
        }
        lemma_insert_walk(t1, t2, root2, bwd, prev, d);
        let x = order.last() as int;
        assert(order[order.len() - 1] == order.last());
        lemma_insert_step(t1, t2, root2, bwd, x, d);
        lemma_count_concat(script_inserts(t1, t2, root2, bwd, prev), dst_actions(t1, t2, root2, bwd, x), f);
        let c_prev = count_where(script_inserts(t1, t2, root2, bwd, prev), f);
        let c_here = count_where(dst_actions(t1, t2, root2, bwd, x), f);
        if c_prev == 1 {
            let j = choose|j: int|
                0 <= j < prev.len() && count_where(dst_actions(t1, t2, root2, bwd, #[trigger] prev[j] as int), f) == 1;
            assert(prev[j] == order[j]);
            if c_here == 1 {
                assert(order[j] != order[order.len() - 1]);
                lemma_insert_step(t1, t2, root2, bwd, prev[j] as int, d);
                lemma_two_inserters(t2, bwd, root2, prev[j] as int, x, d);
            }
        }
        if c_here == 1 {
            assert(count_where(dst_actions(t1, t2, root2, bwd, order[order.len() - 1] as int), f) == 1);
        }
    }
}

/// Every unmapped destination node under the root, other than the root, is
/// inserted by exactly one action of the edit script: an insert of the node
/// itself, or of a whole subtree above it; and the root is never inserted.
pub proof fn lemma_script_inserts_once(
    t1: Seq<Node>,
    root1: int,
    t2: Seq<Node>,
    root2: int,
    m: Mapping,
    kept: Seq<Seq<usize>>,
    d: int,
)
    requires
        arena_links(t2),
        t2.len() <= usize::MAX,
        0 <= root2 < t2.len(),
        t2[root2].parent is None,
        in_subtree(parents(t2), root2, d),
    ensures
        d != root2 && !m.bwd().contains_key(d as usize) ==> exists|i: int|
            0 <= i < edit_script(t1, root1, t2, root2, m, kept).len() && #[trigger] inserts_node(
                edit_script(t1, root1, t2, root2, m, kept)[i],
                t2,
                d,
            ) && forall|j: int|
                0 <= j < edit_script(t1, root1, t2, root2, m, kept).len() && inserts_node(
                    #[trigger] edit_script(t1, root1, t2, root2, m, kept)[j],
                    t2,
                    d,
                ) ==> j == i,
        forall|i: int|
            0 <= i < edit_script(t1, root1, t2, root2, m, kept).len() ==> !inserts_node(
                #[trigger] edit_script(t1, root1, t2, root2, m, kept)[i],
                t2,
                root2,
            ),
{
    let script = edit_script(t1, root1, t2, root2, m, kept);
    let f = |a: Action| inserts_node(a, t2, d);
    let order = bfs(kids(t2), root2);
    let ins = script_inserts(t1, t2, root2, m.bwd(), order);
    let re = realign(t1, t2, m.fwd(), m.links(), kept);
    let head = drop_repeat_moves(ins + re);
    let tail = script_deletes(t1, m.fwd(), preorder(kids(t1), root1));
    assert(script == head + tail);
    lemma_bfs_in_subtree(t2, root2);
    crate::tree::lemma_bfs_distinct(t2, root2);
    assert forall|j: int| 0 <= j < order.len() implies #[trigger] order[j] < t2.len() by {
        lemma_in_subtree_ge(parents(t2), root2, order[j] as int);
    }
    lemma_insert_walk(t1, t2, root2, m.bwd(), order, d);
    lemma_count_realign(t1, t2, m.fwd(), m.links(), kept, f);
    lemma_count_concat(ins, re, f);
    lemma_count_drop_moves(ins + re, f);
    lemma_count_deletes_none(t1, m.fwd(), preorder(kids(t1), root1), f);
    lemma_count_concat(head, tail, f);
    if d != root2 && !m.bwd().contains_key(d as usize) {
        lemma_script_inserts_unmapped(t1, root1, t2, root2, m, kept, d);
        let i = choose|i: int| 0 <= i < script.len() && #[trigger] inserts_node(script[i], t2, d);
        assert forall|j: int| 0 <= j < script.len() && inserts_node(#[trigger] script[j], t2, d) implies j == i by {
            if i < j {
                lemma_count_index(script, f, i, j);
            } else if j < i {
                lemma_count_index(script, f, j, i);
            }
        }
    }
    // The root lies below no other node, so no step inserts it.
    let g = |a: Action| inserts_node(a, t2, root2);
    lemma_insert_walk(t1, t2, root2, m.bwd(), order, root2);
    lemma_count_realign(t1, t2, m.fwd(), m.links(), kept, g);
    lemma_count_concat(ins, re, g);
    lemma_count_drop_moves(ins + re, g);
    lemma_count_deletes_none(t1, m.fwd(), preorder(kids(t1), root1), g);
    lemma_count_concat(head, tail, g);
    if count_where(ins, g) == 1 {
        let j = choose|j: int| 0 <= j < order.len() && count_where(dst_actions(t1, t2, root2, m.bwd(), #[trigger] order[j] as int), g) == 1;
        lemma_insert_step(t1, t2, root2, m.bwd(), order[j] as int, root2);
        lemma_in_subtree_ge(parents(t2), order[j] as int, root2);
        assert(parents(t2)[root2] == t2[root2].parent);
    }
    assert forall|i: int| 0 <= i < script.len() implies !inserts_node(#[trigger] script[i], t2, root2) by {
        if inserts_node(script[i], t2, root2) {
            lemma_count_has(script, g, i);
        }
    }
}

/// The action updates source node `s`.
pub open spec fn updates_node(a: Action, s: usize) -> bool {
    a matches Action::Update { node, .. } && node == s
}

/// A mapped destination node lies under no node with nothing mapped below.
proof fn lemma_mapped_not_under_clear(t2: Seq<Node>, root2: int, bwd: Map<usize, usize>, x: int)
    requires
        bwd.contains_key(x as usize),
        0 <= x,
        x <= usize::MAX,
    ensures
        !under_clear(parents(t2), bwd.dom(), root2, x),
{
    if under_clear(parents(t2), bwd.dom(), root2, x) {
        let a = choose|a: int|
            a != x && a != root2 && #[trigger] in_subtree(parents(t2), a, x) && clear_subtree(parents(t2), bwd.dom(), a);
        assert(!bwd.dom().contains(x as usize));
    }
}

/// Node `x`'s step of the destination walk updates `s` once when `x` is the
/// image of `s` and their labels differ, and otherwise not at all.
proof fn lemma_update_step(t1: Seq<Node>, t2: Seq<Node>, root2: int, bwd: Map<usize, usize>, x: int, s: usize)
    requires
        0 <= x < t2.len(),
        t2.len() <= usize::MAX,
    ensures
        count_where(dst_actions(t1, t2, root2, bwd, x), |a: Action| updates_node(a, s)) == if bwd.contains_key(
            x as usize,
        ) && bwd[x as usize] == s && t1[s as int].label@ != t2[x].label@ {
            1nat
        } else {
            0nat
        },
{
    let f = |a: Action| updates_node(a, s);
    let here = dst_actions(t1, t2, root2, bwd, x);
    let par2 = parents(t2);
    if bwd.contains_key(x as usize) {
        lemma_mapped_not_under_clear(t2, root2, bwd, x);
    }
    if x == root2 {
        if bwd.contains_key(x as usize) && t1[bwd[x as usize] as int].label@ != t2[x].label@ {
            lemma_count_small(Action::Update { node: bwd[x as usize], new_label: t2[x].label }, f);
        } else {
            lemma_count_small(Action::Update { node: 0, new_label: t2[x].label }, f);
        }
    } else if under_clear(par2, bwd.dom(), root2, x) {
        lemma_count_small(Action::Update { node: 0, new_label: t2[x].label }, f);
    } else {
        let p = t2[x].parent.unwrap();
        let k = position_of(t2, x);
        if !bwd.contains_key(x as usize) {
            lemma_count_small(Action::InsertTree { node: x as usize, parent: p, position: k }, f);
            lemma_count_small(Action::InsertNode { node: x as usize, parent: p, position: k }, f);
        } else {
            let sn = bwd[x as usize];
            let upd = Action::Update { node: sn, new_label: t2[x].label };
            let mv = Action::MoveTree { node: sn, parent: p, position: k };
            lemma_count_small(upd, f);
            lemma_count_small(mv, f);
            let a: Seq<Action> = if t1[sn as int].label@ != t2[x].label@ {
                seq![upd]
            } else {
                seq![]
            };
            let b: Seq<Action> = if t1[sn as int].parent != (if bwd.contains_key(p) {
                Some(bwd[p])
            } else {
                None
            }) {
                seq![mv]
            } else {
                seq![]
            };
            assert(here == a + b);
            lemma_count_concat(a, b, f);
        }
    }
}

/// Along a walk visiting each node once, `s` is updated once exactly when
/// the walk visits the image `d` of `s` and their labels differ.
proof fn lemma_update_walk(
    t1: Seq<Node>,
    t2: Seq<Node>,
    root2: int,
    bwd: Map<usize, usize>,
    order: Seq<usize>,
    s: usize,
    d: usize,
)
    requires
        t2.len() <= usize::MAX,
        order.no_duplicates(),
        forall|j: int| 0 <= j < order.len() ==> #[trigger] order[j] < t2.len(),
        forall|x: usize| #[trigger] bwd.contains_key(x) && bwd[x] == s ==> x == d,
    ensures
        count_where(script_inserts(t1, t2, root2, bwd, order), |a: Action| updates_node(a, s)) == if order.contains(d)
            && bwd.contains_key(d) && bwd[d] == s && t1[s as int].label@ != t2[d as int].label@ {
            1nat
        } else {
            0nat
        },
    decreases order.len(),
{
    if order.len() > 0 {
        let f = |a: Action| updates_node(a, s);
        let prev = order.drop_last();
        assert forall|j: int| 0 <= j < prev.len() implies #[trigger] prev[j] < t2.len() by {
            assert(prev[j] == order[j]);
        }
        assert(prev.no_duplicates()) by {
            assert forall|i: int, j: int| 0 <= i < prev.len() && 0 <= j < prev.len() && i != j implies prev[i] != prev[j] by {
                assert(prev[i] == order[i] && prev[j] == order[j]);
            }
        }
        lemma_update_walk(t1, t2, root2, bwd, prev, s, d);
        let x = order.last() as int;
        assert(order[order.len() - 1] == order.last());
        lemma_update_step(t1, t2, root2, bwd, x, s);
        lemma_count_concat(script_inserts(t1, t2, root2, bwd, prev), dst_actions(t1, t2, root2, bwd, x), f);
        if order.contains(d) {
            let j = choose|j: int| 0 <= j < order.len() && order[j] == d;
            if j < order.len() - 1 {
                assert(prev[j] == d);
                assert(x != d);
            }
        }
        if prev.contains(d) {
            let j = choose|j: int| 0 <= j < prev.len() && prev[j] == d;
            assert(order[j] == d);
        }
        if x == d as int {
            if prev.contains(d) {
                let j = choose|j: int| 0 <= j < prev.len() && prev[j] == d;
                assert(order[j] == order[order.len() - 1]);
            }
            assert(order.contains(d));
        }
    }
}

/// A mapped source node whose image lies under the destination root is
/// updated by the edit script exactly when its label differs from its
/// image's, and then by exactly one action, which carries the image's label.
pub proof fn lemma_script_updates(
    t1: Seq<Node>,
    root1: int,
    t2: Seq<Node>,
    root2: int,
    m: Mapping,
    kept: Seq<Seq<usize>>,
    s: usize,
)
    requires
        m.wf(),
        arena_links(t2),
        t2.len() <= usize::MAX,
        0 <= root2 < t2.len(),
        m.fwd().contains_key(s) ==> in_subtree(parents(t2), root2, m.fwd()[s] as int),
    ensures
        (exists|i: int|
            0 <= i < edit_script(t1, root1, t2, root2, m, kept).len() && #[trigger] updates_node(
                edit_script(t1, root1, t2, root2, m, kept)[i],
                s,
            )) <==> (m.fwd().contains_key(s) && t1[s as int].label@ != t2[m.fwd()[s] as int].label@),
        forall|i: int, j: int|
            0 <= i < j < edit_script(t1, root1, t2, root2, m, kept).len() ==> !(updates_node(
                #[trigger] edit_script(t1, root1, t2, root2, m, kept)[i],
                s,
            ) && updates_node(#[trigger] edit_script(t1, root1, t2, root2, m, kept)[j], s)),
        forall|i: int|
            0 <= i < edit_script(t1, root1, t2, root2, m, kept).len() && updates_node(
                #[trigger] edit_script(t1, root1, t2, root2, m, kept)[i],
                s,
            ) ==> edit_script(t1, root1, t2, root2, m, kept)[i]->Update_new_label@ == t2[m.fwd()[s] as int].label@,
{
    let script = edit_script(t1, root1, t2, root2, m, kept);
    let f = |a: Action| updates_node(a, s);
    let order = bfs(kids(t2), root2);
    let ins = script_inserts(t1, t2, root2, m.bwd(), order);
    let re = realign(t1, t2, m.fwd(), m.links(), kept);
    let head = drop_repeat_moves(ins + re);
    let tail = script_deletes(t1, m.fwd(), preorder(kids(t1), root1));
    assert(script == head + tail);
    lemma_bfs_in_subtree(t2, root2);
    crate::tree::lemma_bfs_distinct(t2, root2);
    assert forall|j: int| 0 <= j < order.len() implies #[trigger] order[j] < t2.len() by {
        lemma_in_subtree_ge(parents(t2), root2, order[j] as int);
    }
    let d: usize = if m.fwd().contains_key(s) {
        m.fwd()[s]
    } else {
        0
    };
    assert forall|x: usize| #[trigger] m.bwd().contains_key(x) && m.bwd()[x] == s implies x == d by {
        crate::mapping::lemma_lookup_symmetric(m, s, x);
    }
    lemma_update_walk(t1, t2, root2, m.bwd(), order, s, d);
    lemma_count_realign(t1, t2, m.fwd(), m.links(), kept, f);
    lemma_count_concat(ins, re, f);
    lemma_count_drop_moves(ins + re, f);
    lemma_count_deletes_none(t1, m.fwd(), preorder(kids(t1), root1), f);
    lemma_count_concat(head, tail, f);
    if m.fwd().contains_key(s) {
        lemma_bfs_complete(t2, root2, d as int);
        crate::mapping::lemma_lookup_symmetric(m, s, d);
    }
    if m.fwd().contains_key(s) && t1[s as int].label@ != t2[m.fwd()[s] as int].label@ {
        assert(count_where(script, f) == 1);
        if forall|i: int| 0 <= i < script.len() ==> !#[trigger] updates_node(script[i], s) {
            lemma_count_none(script, f);
        }
    } else {
        assert(count_where(script, f) == 0);
        assert forall|i: int| 0 <= i < script.len() implies !#[trigger] updates_node(script[i], s) by {
            if updates_node(script[i], s) {
                lemma_count_has(script, f, i);
            }
        }
    }
    assert forall|i: int, j: int| 0 <= i < j < script.len() implies !(updates_node(#[trigger] script[i], s)
        && updates_node(#[trigger] script[j], s)) by {
        lemma_count_index(script, f, i, j);
    }
    lemma_script_justified(t1, root1, t2, root2, m, kept);
    assert forall|i: int| 0 <= i < script.len() && updates_node(#[trigger] script[i], s) implies script[i]->Update_new_label@
        == t2[m.fwd()[s] as int].label@ by {
        assert(justified(script[i], t1, t2, m));
    }
}

/// A count of zero when no action satisfies the predicate.
proof fn lemma_count_none(acts: Seq<Action>, f: spec_fn(Action) -> bool)
    requires
        forall|i: int| 0 <= i < acts.len() ==> !f(#[trigger] acts[i]),
    ensures
        count_where(acts, f) == 0,
    decreases acts.len(),
{
    if acts.len() > 0 {
        assert forall|i: int| 0 <= i < acts.drop_last().len() implies !f(#[trigger] acts.drop_last()[i]) by {
            assert(acts.drop_last()[i] == acts[i]);
        }
        lemma_count_none(acts.drop_last(), f);
        assert(!f(acts[acts.len() - 1]));
    }
}

/// Dropping repeated moves keeps one move of every node that was moved.
proof fn lemma_drop_keeps_a_move(acts: Seq<Action>, n: usize, k: int)
    requires
        0 <= k < acts.len(),
        moves_node(acts[k], n),
    ensures
        exists|i: int| 0 <= i < drop_repeat_moves(acts).len() && #[trigger] moves_node(drop_repeat_moves(acts)[i], n),
    decreases acts.len(),
{
    let prev = drop_repeat_moves(acts.drop_last());
    let cur = drop_repeat_moves(acts);
    let a = acts.last();
    if k < acts.len() - 1 {
        assert(acts.drop_last()[k] == acts[k]);
        lemma_drop_keeps_a_move(acts.drop_last(), n, k);
        let i = choose|i: int| 0 <= i < prev.len() && #[trigger] moves_node(prev[i], n);
        if cur != prev {
            assert(cur == prev.push(a));
            assert(cur[i] == prev[i]);
        }
        assert(moves_node(cur[i], n));
    } else {
        if exists|j: int| 0 <= j < acts.len() - 1 && #[trigger] moves_node(acts[j], n) {
            let j = choose|j: int| 0 <= j < acts.len() - 1 && #[trigger] moves_node(acts[j], n);
            assert(acts.drop_last()[j] == acts[j]);
            lemma_drop_keeps_a_move(acts.drop_last(), n, j);
            let i = choose|i: int| 0 <= i < prev.len() && #[trigger] moves_node(prev[i], n);
            if cur != prev {
                assert(cur == prev.push(a));
                assert(cur[i] == prev[i]);
            }
            assert(moves_node(cur[i], n));
        } else {
            assert(cur == prev.push(a));
            assert(moves_node(cur[prev.len() as int], n));
        }
    }
}

/// A mapped destination node under the root, other than the root, whose
/// source counterpart hangs under another parent than its own parent's
/// counterpart, gets its counterpart moved by the edit script.
pub proof fn lemma_script_moves_on_parent_change(
    t1: Seq<Node>,
    root1: int,
    t2: Seq<Node>,
    root2: int,
    m: Mapping,
    kept: Seq<Seq<usize>>,
    d: int,
)
    requires
        m.wf(),
        arena_links(t2),
        t2.len() <= usize::MAX,
        0 <= root2 < t2.len(),
        in_subtree(parents(t2), root2, d),
        d != root2,
        m.bwd().contains_key(d as usize),
        ({
            let p = t2[d].parent.unwrap();
            t1[m.bwd()[d as usize] as int].parent != (if m.bwd().contains_key(p) {
                Some(m.bwd()[p])
            } else {
                None
            })
        }),
    ensures
        exists|i: int|
            0 <= i < edit_script(t1, root1, t2, root2, m, kept).len() && #[trigger] moves_node(
                edit_script(t1, root1, t2, root2, m, kept)[i],
                m.bwd()[d as usize],
            ),
{
    let bwd = m.bwd();
    let sn = bwd[d as usize];
    let order = bfs(kids(t2), root2);
    let ins = script_inserts(t1, t2, root2, bwd, order);
    let re = realign(t1, t2, m.fwd(), m.links(), kept);
    let raw = ins + re;
    let head = drop_repeat_moves(raw);
    let tail = script_deletes(t1, m.fwd(), preorder(kids(t1), root1));
    let script = edit_script(t1, root1, t2, root2, m, kept);
    assert(script == head + tail);
    lemma_in_subtree_ge(parents(t2), root2, d);
    lemma_mapped_not_under_clear(t2, root2, bwd, d);
    lemma_bfs_complete(t2, root2, d);
    let j = choose|j: int| 0 <= j < order.len() && order[j] == d as usize;
    let here = dst_actions(t1, t2, root2, bwd, d);
    let p = t2[d].parent.unwrap();
    let k = position_of(t2, d);
    let mv = Action::MoveTree { node: sn, parent: p, position: k };
    assert(here.contains(mv)) by {
        let a: Seq<Action> = if t1[sn as int].label@ != t2[d].label@ {
            seq![Action::Update { node: sn, new_label: t2[d].label }]
        } else {
            seq![]
        };
        assert(here == a + seq![mv]);
        assert((a + seq![mv])[a.len() as int] == mv);
    }
    assert(order[j] as int == d);
    lemma_inserts_contain(t1, t2, root2, bwd, order, j, mv);
    let q = choose|q: int| 0 <= q < ins.len() && ins[q] == mv;
    assert(raw[q] == mv);
    lemma_drop_keeps_a_move(raw, sn, q);
    let i = choose|i: int| 0 <= i < head.len() && #[trigger] moves_node(head[i], sn);
    assert(script[i] == head[i]);
}

/// Every unmapped source node under the root is deleted by exactly one
/// action of the edit script: a delete of the node itself, or of a whole
/// subtree above it.
pub proof fn lemma_script_deletes_once(
    t1: Seq<Node>,
    root1: int,
    t2: Seq<Node>,
    root2: int,
    m: Mapping,
    kept: Seq<Seq<usize>>,
    s: int,
)
    requires
        arena_links(t1),
        t1.len() <= usize::MAX,
        0 <= root1 < t1.len(),
        t1[root1].parent is None,
        in_subtree(parents(t1), root1, s),
        !m.fwd().contains_key(s as usize),
    ensures
        exists|i: int|
            0 <= i < edit_script(t1, root1, t2, root2, m, kept).len() && #[trigger] deletes_node(
                edit_script(t1, root1, t2, root2, m, kept)[i],
                t1,
                s,
            ) && forall|j: int|
                0 <= j < edit_script(t1, root1, t2, root2, m, kept).len() && deletes_node(
                    #[trigger] edit_script(t1, root1, t2, root2, m, kept)[j],
                    t1,
                    s,
                ) ==> j == i,
{
    lemma_script_deletes_unmapped(t1, root1, t2, root2, m, kept, s);
    let script = edit_script(t1, root1, t2, root2, m, kept);
    let i = choose|i: int| 0 <= i < script.len() && #[trigger] deletes_node(script[i], t1, s);
    let f = |a: Action| deletes_node(a, t1, s);
    let ins = script_inserts(t1, t2, root2, m.bwd(), bfs(kids(t2), root2));
    let re = realign(t1, t2, m.fwd(), m.links(), kept);
    let head = drop_repeat_moves(ins + re);
    let order = preorder(kids(t1), root1);
    let tail = script_deletes(t1, m.fwd(), order);
    assert(script == head + tail);
    lemma_count_inserts_no_deletes(t1, t2, root2, m.bwd(), bfs(kids(t2), root2));
    // No action of the head deletes anything.
    lemma_count_realign(t1, t2, m.fwd(), m.links(), kept, |a: Action| is_delete(a));
    lemma_count_concat(ins, re, |a: Action| is_delete(a));
    lemma_count_drop_moves(ins + re, |a: Action| is_delete(a));
    lemma_preorder_members(t1, root1);
    assert forall|j: int| 0 <= j < order.len() implies #[trigger] order[j] < t1.len() by {
        lemma_in_subtree_ge(parents(t1), root1, order[j] as int);
    }
    lemma_delete_walk(t1, m.fwd(), order, s);
    assert forall|j: int|
        0 <= j < script.len() && deletes_node(#[trigger] script[j], t1, s) implies j == i by {
        if j < head.len() {
            assert(head[j] == script[j]);
            assert(is_delete(head[j]));
            lemma_count_has(head, |a: Action| is_delete(a), j);
        }
        if i < head.len() {
            assert(head[i] == script[i]);
            assert(is_delete(head[i]));
            lemma_count_has(head, |a: Action| is_delete(a), i);
        }
        if i != j {
            assert(tail[i - head.len()] == script[i]);
            assert(tail[j - head.len()] == script[j]);
            assert(f(tail[i - head.len()]) && f(tail[j - head.len()]));
            if i < j {
                lemma_count_index(tail, f, i - head.len(), j - head.len());
            } else {
                lemma_count_index(tail, f, j - head.len(), i - head.len());
            }
        }
    }
}

// ---------------------------------------------------------------------------
// Per-node facts computed once.
// ---------------------------------------------------------------------------

/// Whether each source node is mapped.
fn source_mapped_flags(tree: &Tree, mapping: &Mapping) -> (r: Vec<bool>)
    ensures
        r@.len() == tree.arena().len(),
        forall|i: int| 0 <= i < r@.len() ==> #[trigger] r@[i] == mapping.fwd().contains_key(i as usize),
{
    let n = tree.node_count();
    let mut r: Vec<bool> = Vec::with_capacity(n);
    let mut i: usize = 0;
    while i < n
        invariant
            n == tree.arena().len(),
            i <= n,
            r@.len() == i,
            forall|j: int| 0 <= j < i ==> #[trigger] r@[j] == mapping.fwd().contains_key(j as usize),
        decreases n - i,
    {
        r.push(mapping.has_src(i));
        i += 1;
    }
    r
}

/// Whether each destination node is mapped.
fn destination_mapped_flags(tree: &Tree, mapping: &Mapping) -> (r: Vec<bool>)
    ensures
        r@.len() == tree.arena().len(),
        forall|i: int| 0 <= i < r@.len() ==> #[trigger] r@[i] == mapping.bwd().contains_key(i as usize),
{
    let n = tree.node_count();
    let mut r: Vec<bool> = Vec::with_capacity(n);
    let mut i: usize = 0;
    while i < n
        invariant
            n == tree.arena().len(),
            i <= n,
            r@.len() == i,
            forall|j: int| 0 <= j < i ==> #[trigger] r@[j] == mapping.bwd().contains_key(j as usize),
        decreases n - i,
    {
        r.push(mapping.has_dst(i));
        i += 1;
    }
    r
}

/// A subtree is clear exactly when its root is unmapped and every child's
/// subtree is clear.
proof fn lemma_clear_step(nodes: Seq<Node>, mapped: Set<usize>, i: int)
    requires
        arena_links(nodes),
        nodes.len() <= usize::MAX,
        0 <= i < nodes.len(),
    ensures
        clear_subtree(parents(nodes), mapped, i) <==> (!mapped.contains(i as usize) && forall|k: int|
            0 <= k < nodes[i].children@.len() ==> clear_subtree(
                parents(nodes),
                mapped,
                #[trigger] nodes[i].children@[k] as int,
            )),
{
    let par = parents(nodes);
    assert(par.len() == nodes.len());
    assert(in_subtree(par, i, i));
    if clear_subtree(par, mapped, i) {
        assert forall|k: int| 0 <= k < nodes[i].children@.len() implies clear_subtree(
            par,
            mapped,
            #[trigger] nodes[i].children@[k] as int,
        ) by {
            let c = nodes[i].children@[k] as int;
            assert(i < c < nodes.len());
            assert(par[c] == nodes[c].parent);
            assert forall|y: int| #[trigger] in_subtree(par, c, y) implies !mapped.contains(
                y as usize,
            ) by {
                lemma_in_subtree_lift(par, i, c, y);
            }
        }
    }
    if !mapped.contains(i as usize) && forall|k: int|
        0 <= k < nodes[i].children@.len() ==> clear_subtree(
            par,
            mapped,
            #[trigger] nodes[i].children@[k] as int,
        ) {
        assert forall|y: int| #[trigger] in_subtree(par, i, y) implies !mapped.contains(y as usize) by {
            if y != i {
                let k = lemma_under_some_child(nodes, i, y);
                assert(clear_subtree(par, mapped, nodes[i].children@[k] as int));
            }
        }
    }
}

/// Which subtrees hold no mapped node.
fn clear_flags(tree: &Tree, mapped: &Vec<bool>, Ghost(m): Ghost<Set<usize>>) -> (r: Vec<bool>)
    requires
        tree.wf(),
        mapped@.len() == tree.arena().len(),
        forall|i: int| 0 <= i < mapped@.len() ==> #[trigger] mapped@[i] == m.contains(i as usize),
    ensures
        r@.len() == tree.arena().len(),
        forall|x: int|
            0 <= x < r@.len() ==> #[trigger] r@[x] == clear_subtree(parents(tree.arena()), m, x),
{
    let ghost nodes = tree.arena();
    let ghost par = parents(nodes);
    let n = tree.node_count();
    let mut r: Vec<bool> = Vec::with_capacity(n);
    let mut fill: usize = 0;
    while fill < n
        invariant
            fill <= n,
            r@.len() == fill,
        decreases n - fill,
    {
        r.push(false);
        fill += 1;
    }
    let mut i: usize = n;
    while i > 0
        invariant
            tree.wf(),
            nodes == tree.arena(),
            par == parents(nodes),
            n == nodes.len(),
            mapped@.len() == n,
            forall|j: int| 0 <= j < n ==> #[trigger] mapped@[j] == m.contains(j as usize),
            i <= n,
            r@.len() == n,
            forall|x: int| i <= x < n ==> #[trigger] r@[x] == clear_subtree(par, m, x),
        decreases i,
    {
        i -= 1;
        let node = tree.node(i);
        let count = node.children.len();
        let mut all: bool = !mapped[i];
        let mut k: usize = 0;
        while k < count
            invariant
                tree.wf(),
                nodes == tree.arena(),
                par == parents(nodes),
                *node == nodes[i as int],
                count == nodes[i as int].children@.len(),
                i < n,
                n == nodes.len(),
                mapped@.len() == n,
                forall|j: int| 0 <= j < n ==> #[trigger] mapped@[j] == m.contains(j as usize),
                r@.len() == n,
                forall|x: int| i < x < n ==> #[trigger] r@[x] == clear_subtree(par, m, x),
                k <= count,
                all == (!m.contains(i as usize) && forall|q: int|
                    0 <= q < k ==> clear_subtree(par, m, #[trigger] nodes[i as int].children@[q] as int)),
            decreases count - k,
        {
            let c = node.children[k];
            assert(nodes[i as int].children@[k as int] == c);
            assert(i < c < n);
            all = all && r[c];
            k += 1;
        }
        proof {
            lemma_clear_step(nodes, m, i as int);
        }
        r.set(i, all);
    }
    r
}

/// `x` lies under a clear subtree rooted at a proper ancestor other than
/// `skip` exactly when its parent is such a root or itself lies under one.
proof fn lemma_under_clear_step(nodes: Seq<Node>, m: Set<usize>, skip: int, i: int)
    requires
        arena_links(nodes),
        0 <= i < nodes.len(),
    ensures
        under_clear(parents(nodes), m, skip, i) <==> match nodes[i].parent {
            Some(p) => (p != skip && clear_subtree(parents(nodes), m, p as int)) || under_clear(
                parents(nodes),
                m,
                skip,
                p as int,
            ),
            None => false,
        },
{
    let par = parents(nodes);
    assert(par[i] == nodes[i].parent);
    if under_clear(par, m, skip, i) {
        let a = choose|a: int|
            a != i && a != skip && #[trigger] in_subtree(par, a, i) && clear_subtree(par, m, a);
        let p = par[i].unwrap() as int;
        if a != p {
            assert(in_subtree(par, a, p));
            lemma_in_subtree_ge(par, a, p);
            assert(under_clear(par, m, skip, p));
        }
    }
    match nodes[i].parent {
        Some(p) => {
            let p = p as int;
            assert(p < i);
            assert(par.len() == nodes.len());
            if p != skip && clear_subtree(par, m, p) {
                assert(in_subtree(par, p, p));
                assert(in_subtree(par, p, i));
            }
            if under_clear(par, m, skip, p) {
                let a = choose|a: int|
                    a != p && a != skip && #[trigger] in_subtree(par, a, p) && clear_subtree(par, m, a);
                lemma_in_subtree_ge(par, a, p);
                assert(in_subtree(par, a, i));
            }
        },
        None => {},
    }
}

/// Which nodes lie under a clear subtree rooted at a proper ancestor other
/// than `skip`.
fn under_clear_flags(
    tree: &Tree,
    clear: &Vec<bool>,
    skip: Option<NodeId>,
    Ghost(m): Ghost<Set<usize>>,
    Ghost(skip_id): Ghost<int>,
) -> (r: Vec<bool>)
    requires
        tree.wf(),
        clear@.len() == tree.arena().len(),
        forall|x: int|
            0 <= x < clear@.len() ==> #[trigger] clear@[x] == clear_subtree(
                parents(tree.arena()),
                m,
                x,
            ),
        skip_id == match skip {
            Some(s) => s as int,
            None => -1,
        },
    ensures
        r@.len() == tree.arena().len(),
        forall|x: int|
            0 <= x < r@.len() ==> #[trigger] r@[x] == under_clear(
                parents(tree.arena()),
                m,
                skip_id,
                x,
            ),
{
    let ghost nodes = tree.arena();
    let ghost par = parents(nodes);
    let n = tree.node_count();
    let mut r: Vec<bool> = Vec::with_capacity(n);
    let mut i: usize = 0;
    while i < n
        invariant
            tree.wf(),
            nodes == tree.arena(),
            par == parents(nodes),
            n == nodes.len(),
            clear@.len() == n,
            forall|x: int| 0 <= x < n ==> #[trigger] clear@[x] == clear_subtree(par, m, x),
            skip_id == match skip {
                Some(s) => s as int,
                None => -1,
            },
            i <= n,
            r@.len() == i,
            forall|x: int| 0 <= x < i ==> #[trigger] r@[x] == under_clear(par, m, skip_id, x),
        decreases n - i,
    {
        let below = match tree.node(i).parent {
            Some(p) => {
                assert(p < i);
                let is_skip = match skip {
                    Some(s) => s == p,
                    None => false,
                };
                (!is_skip && clear[p]) || r[p]
            },
            None => false,
        };
        proof {
            lemma_under_clear_step(nodes, m, skip_id, i as int);
        }
        r.push(below);
        i += 1;
    }
    r
}

// ---------------------------------------------------------------------------
// The script.
// ---------------------------------------------------------------------------

/// Generates the edit script that transforms `t1` into `t2` according to `mapping`.
pub fn generate_actions(source_tree: &Tree, destination_tree: &Tree, mapping: &Mapping) -> (r: Vec<
    Action,
>)
    requires
        source_tree.wf(),
        destination_tree.wf(),
        mapping.wf(),
        mapping.fits(source_tree.arena().len(), destination_tree.arena().len()),
    ensures
        exists|kept: Seq<Seq<usize>>|
            #![trigger edit_script(
                source_tree.arena(),
                source_tree.root_id(),
                destination_tree.arena(),
                destination_tree.root_id(),
                *mapping,
                kept,
            )]
            runs_longest(
                source_tree.arena(),
                destination_tree.arena(),
                mapping.fwd(),
                mapping.links(),
                kept,
            ) && r@ == edit_script(
                source_tree.arena(),
                source_tree.root_id(),
                destination_tree.arena(),
                destination_tree.root_id(),
                *mapping,
                kept,
            ),
{
    let ghost t1 = source_tree.arena();
    let ghost t2 = destination_tree.arena();
    let ghost fwd = mapping.fwd();
    let ghost bwd = mapping.bwd();
    let ghost par1 = parents(t1);
    let ghost par2 = parents(t2);
    let n1 = source_tree.node_count();
    let n2 = destination_tree.node_count();
    proof {
        lemma_fits_backward(*mapping, t1.len(), t2.len());
    }

    // Phase 1: BFS over T2 — emit inserts / updates / moves.
    let root2 = destination_tree.root();
    let mapped2 = destination_mapped_flags(destination_tree, mapping);
    let clear2 = clear_flags(destination_tree, &mapped2, Ghost(bwd.dom()));
    let covered2 = under_clear_flags(
        destination_tree,
        &clear2,
        Some(root2),
        Ghost(bwd.dom()),
        Ghost(root2 as int),
    );
    let order2 = destination_tree.bfs_order(root2);
    proof {
        lemma_bfs_in_subtree(t2, root2 as int);
    }
    let mut actions: Vec<Action> = Vec::new();
    let mut index: usize = 0;
    while index < order2.len()
        invariant
            source_tree.wf(),
            destination_tree.wf(),
            mapping.wf(),
            t1 == source_tree.arena(),
            t2 == destination_tree.arena(),
            fwd == mapping.fwd(),
            bwd == mapping.bwd(),
            par2 == parents(t2),
            n1 == t1.len(),
            n2 == t2.len(),
            root2 == destination_tree.root_id(),
            forall|d: usize| #[trigger]
                bwd.contains_key(d) ==> d < n2 && bwd[d] < n1 && fwd.contains_key(bwd[d])
                    && fwd[bwd[d]] == d,
            clear2@.len() == n2,
            forall|x: int| 0 <= x < n2 ==> #[trigger] clear2@[x] == clear_subtree(par2, bwd.dom(), x),
            covered2@.len() == n2,
            forall|x: int|
                0 <= x < n2 ==> #[trigger] covered2@[x] == under_clear(
                    par2,
                    bwd.dom(),
                    root2 as int,
                    x,
                ),
            order2@ == bfs(kids(t2), root2 as int),
            forall|j: int|
                0 <= j < order2@.len() ==> in_subtree(par2, root2 as int, #[trigger] order2@[j] as int),
            index <= order2@.len(),
            actions@ == script_inserts(t1, t2, root2 as int, bwd, order2@.take(index as int)),
        decreases order2@.len() - index,
    {
        let d = order2[index];
        let ghost before = actions@;
        proof {
            assert(in_subtree(par2, root2 as int, d as int));
            lemma_in_subtree_ge(par2, root2 as int, d as int);
            assert(order2@.take(index + 1).drop_last() =~= order2@.take(index as int));
            assert(order2@.take(index + 1).last() == d);
        }
        if d != root2 && !covered2[d] {
            proof {
                assert(par2[d as int] == t2[d as int].parent);
            }
            let p = destination_tree.node(d).parent.unwrap();
            let k = destination_tree.position_in_parent(d).unwrap();
            proof {
                lemma_child_index(t2, p as int, k as int);
                assert(position_of(t2, d as int) == k);
            }
            if !mapping.has_dst(d) {
                if clear2[d] {
                    actions.push(Action::InsertTree { node: d, parent: p, position: k });
                } else {
                    actions.push(Action::InsertNode { node: d, parent: p, position: k });
                }
                assert(actions@ == before + dst_actions(t1, t2, root2 as int, bwd, d as int));
            } else {
                let s = mapping.get_src(d).unwrap();
                let label_changed = !(source_tree.node(s).label == destination_tree.node(d).label);
                if label_changed {
                    let new_label = destination_tree.node(d).label.clone();
                    actions.push(Action::Update { node: s, new_label });
                }
                let ghost mid = actions@;
                let expected = mapping.get_src(p);
                let parent_changed = match (source_tree.node(s).parent, expected) {
                    (Some(a), Some(b)) => a != b,
                    (None, None) => false,
                    _ => true,
                };
                if parent_changed {
                    actions.push(Action::MoveTree { node: s, parent: p, position: k });
                }
                proof {
                    let upd: Seq<Action> = if t1[s as int].label@ != t2[d as int].label@ {
                        seq![Action::Update { node: s, new_label: t2[d as int].label }]
                    } else {
                        seq![]
                    };
                    assert(mid =~= before + upd);
                }
                assert(actions@ =~= before + dst_actions(t1, t2, root2 as int, bwd, d as int));
            }
        } else if d == root2 && mapping.has_dst(d) {
            let s = mapping.get_src(d).unwrap();
            if !(source_tree.node(s).label == destination_tree.node(d).label) {
                let new_label = destination_tree.node(d).label.clone();
                actions.push(Action::Update { node: s, new_label });
            }
            assert(actions@ =~= before + dst_actions(t1, t2, root2 as int, bwd, d as int));
        } else {
            assert(actions@ =~= before + dst_actions(t1, t2, root2 as int, bwd, d as int));
        }
        index += 1;
    }
    assert(order2@.take(order2@.len() as int) =~= order2@);
    let ghost inserts = actions@;

    // Phase 2: alignment — within mapped (w, x), order mapped children to match T2.
    let pairs = mapping.pairs();
    let ghost links = mapping.links();
    let ghost mut kept: Seq<Seq<usize>> = seq![];
    let mut j: usize = 0;
    while j < pairs.len()
        invariant
            source_tree.wf(),
            destination_tree.wf(),
            mapping.wf(),
            t1 == source_tree.arena(),
            t2 == destination_tree.arena(),
            fwd == mapping.fwd(),
            links == mapping.links(),
            pairs@ == links,
            mapping.fits(t1.len(), t2.len()),
            j <= pairs@.len(),
            runs_longest(t1, t2, fwd, links.take(j as int), kept),
            actions@ == inserts + realign(t1, t2, fwd, links.take(j as int), kept),
        decreases pairs@.len() - j,
    {
        let (s, d) = pairs[j];
        proof {
            assert(pairs@[j as int] == links[j as int]);
            assert(fwd.contains_key(links[j as int].0));
            assert(fwd[s] == d);
        }
        let ghost before = actions@;
        let ghost kept_before = kept;
        let run: Ghost<Seq<usize>> = align_children(source_tree, s, destination_tree, d, mapping, &mut actions);
        proof {
            kept = kept.push(run@);
            let lt = links.take(j + 1);
            assert(lt.drop_last() =~= links.take(j as int));
            assert(lt.last() == (s, d));
            assert(kept.drop_last() =~= kept_before);
            assert(kept.last() == run@);
            assert(actions@ =~= inserts + realign(t1, t2, fwd, lt, kept));
            assert forall|k: int| 0 <= k < lt.len() implies longest_run(
                pair_positions(pairing(t1, t2, fwd, lt[k].0 as int, lt[k].1 as int)),
                #[trigger] kept[k],
            ) by {
                if k < j {
                    assert(lt[k] == links.take(j as int)[k]);
                    assert(kept[k] == kept_before[k]);
                }
            }
        }
        j += 1;
    }
    assert(links.take(pairs@.len() as int) =~= links);
    let ghost joined = actions@;
    let mut actions = dedup_moves(actions);

    // Phase 3: pre-order over T1 — emit deletes, collapsing to delete-tree where possible.
    let root1 = source_tree.root();
    let mapped1 = source_mapped_flags(source_tree, mapping);
    let clear1 = clear_flags(source_tree, &mapped1, Ghost(fwd.dom()));
    let covered1 = under_clear_flags(source_tree, &clear1, None, Ghost(fwd.dom()), Ghost(-1));
    let order1 = source_tree.pre_order(root1);
    proof {
        lemma_preorder_members(t1, root1 as int);
    }
    let ghost deduped = actions@;
    let mut index: usize = 0;
    while index < order1.len()
        invariant
            source_tree.wf(),
            t1 == source_tree.arena(),
            fwd == mapping.fwd(),
            par1 == parents(t1),
            n1 == t1.len(),
            root1 == source_tree.root_id(),
            clear1@.len() == n1,
            forall|x: int| 0 <= x < n1 ==> #[trigger] clear1@[x] == clear_subtree(par1, fwd.dom(), x),
            covered1@.len() == n1,
            forall|x: int|
                0 <= x < n1 ==> #[trigger] covered1@[x] == under_clear(par1, fwd.dom(), -1, x),
            order1@ == preorder(kids(t1), root1 as int),
            forall|j: int|
                0 <= j < order1@.len() ==> in_subtree(par1, root1 as int, #[trigger] order1@[j] as int),
            index <= order1@.len(),
            actions@ == deduped + script_deletes(t1, fwd, order1@.take(index as int)),
        decreases order1@.len() - index,
    {
        let s = order1[index];
        let ghost before = actions@;
        proof {
            assert(in_subtree(par1, root1 as int, s as int));
            lemma_in_subtree_ge(par1, root1 as int, s as int);
            assert(order1@.take(index + 1).drop_last() =~= order1@.take(index as int));
            assert(order1@.take(index + 1).last() == s);
        }
        if !mapping.has_src(s) && !covered1[s] {
            if clear1[s] {
                actions.push(Action::DeleteTree { node: s });
            } else {
                actions.push(Action::DeleteNode { node: s });
            }
        }
        assert(actions@ =~= deduped + script_deletes(t1, fwd, order1@.take(index + 1)));
        index += 1;
    }
    assert(order1@.take(order1@.len() as int) =~= order1@);
    assert(actions@ == edit_script(t1, root1 as int, t2, root2 as int, *mapping, kept));
    actions
}

/// Moves the children of `source_node` whose images are children of
/// `destination_node` but sit out of order there: every such child outside a
/// longest increasing run of destination positions.
fn align_children(
    source_tree: &Tree,
    source_node: NodeId,
    destination_tree: &Tree,
    destination_node: NodeId,
    mapping: &Mapping,
    actions: &mut Vec<Action>,
) -> (kept: Ghost<Seq<usize>>)
    requires
        source_tree.wf(),
        destination_tree.wf(),
        mapping.wf(),
        mapping.fits(source_tree.arena().len(), destination_tree.arena().len()),
        source_node < source_tree.arena().len(),
        destination_node < destination_tree.arena().len(),
    ensures
        ({
            let p = pairing(
                source_tree.arena(),
                destination_tree.arena(),
                mapping.fwd(),
                source_node as int,
                destination_node as int,
            );
            &&& longest_run(pair_positions(p), kept@)
            &&& final(actions)@ == old(actions)@ + unkept_moves(
                p,
                destination_node,
                kept@,
                p.len() as int,
            )
        }),
{
    let ghost t1 = source_tree.arena();
    let ghost t2 = destination_tree.arena();
    let ghost fwd = mapping.fwd();
    let source_children = &source_tree.node(source_node).children;
    let count = source_children.len();

    // Collect mapped children of source whose image is a child of destination.
    let mut paired: Vec<(NodeId, usize)> = Vec::new();
    let mut k: usize = 0;
    while k < count
        invariant
            source_tree.wf(),
            destination_tree.wf(),
            mapping.wf(),
            t1 == source_tree.arena(),
            t2 == destination_tree.arena(),
            fwd == mapping.fwd(),
            mapping.fits(t1.len(), t2.len()),
            source_node < t1.len(),
            destination_node < t2.len(),
            *source_children == t1[source_node as int].children,
            count == t1[source_node as int].children@.len(),
            k <= count,
            paired@ == paired_children(t1, t2, fwd, source_node as int, destination_node as int, k as int),
        decreases count - k,
    {
        let child_id = source_children[k];
        assert(t1[source_node as int].children@[k as int] == child_id);
        if let Some(mapped_child) = mapping.get_dst(child_id) {
            let is_child = match destination_tree.node(mapped_child).parent {
                Some(p) => p == destination_node,
                None => false,
            };
            if is_child {
                let position = destination_tree.position_in_parent(mapped_child).unwrap();
                proof {
                    lemma_child_index(t2, destination_node as int, position as int);
                }
                paired.push((child_id, position));
            }
        }
        k += 1;
    }
    let ghost p = paired@;
    assert(p == pairing(t1, t2, fwd, source_node as int, destination_node as int));
    let length = paired.len();
    if length < 2 {
        let ghost all = Seq::new(length as nat, |i: int| i as usize);
        proof {
            assert forall|other: Seq<usize>| increasing_positions(pair_positions(p), other) implies other.len()
                <= all.len() by {
                assert(pair_positions(p).len() == length);
                if other.len() >= 1 {
                    assert(other[0] < length);
                }
                if other.len() >= 2 {
                    assert(other[0] < other[1]);
                    assert(other[1] < length);
                }
            }
            if length == 1 {
                assert(all[0] == 0usize);
                assert(all.contains(0usize));
                assert(unkept_moves(p, destination_node, all, 0) == Seq::<Action>::empty());
            }
            assert(unkept_moves(p, destination_node, all, length as int) =~= Seq::<Action>::empty());
            assert(actions@ =~= actions@ + Seq::<Action>::empty());
        }
        return Ghost(all);
    }
    // Already in T1 child order. LIS on x-positions = children that stay in place.

    let mut positions: Vec<usize> = Vec::with_capacity(length);
    let mut i: usize = 0;
    while i < length
        invariant
            length == paired@.len(),
            i <= length,
            positions@ == pair_positions(paired@).take(i as int),
        decreases length - i,
    {
        positions.push(paired[i].1);
        proof {
            assert(pair_positions(paired@).take(i + 1) =~= pair_positions(paired@).take(i as int).push(
                paired@[i as int].1,
            ));
        }
        i += 1;
    }
    assert(positions@ =~= pair_positions(p));
    let lis = longest_increasing_subsequence(positions.as_slice());
    let mut in_lis: Vec<bool> = Vec::with_capacity(length);
    let mut fill: usize = 0;
    while fill < length
        invariant
            fill <= length,
            in_lis@.len() == fill,
            forall|q: int| 0 <= q < fill ==> !#[trigger] in_lis@[q],
        decreases length - fill,
    {
        in_lis.push(false);
        fill += 1;
    }
    let mut q: usize = 0;
    while q < lis.len()
        invariant
            increasing_positions(positions@, lis@),
            positions@.len() == length,
            in_lis@.len() == length,
            q <= lis@.len(),
            forall|x: int| 0 <= x < length ==> #[trigger] in_lis@[x] == lis@.take(q as int).contains(
                x as usize,
            ),
        decreases lis@.len() - q,
    {
        let at = lis[q];
        assert(at < length);
        in_lis.set(at, true);
        proof {
            assert forall|x: int| 0 <= x < length implies #[trigger] in_lis@[x] == lis@.take(
                q + 1,
            ).contains(x as usize) by {
                let before = lis@.take(q as int);
                let after = lis@.take(q + 1);
                assert(after =~= before.push(at));
                assert(after[q as int] == at);
                if x == at {
                    assert(after.contains(x as usize));
                } else {
                    if before.contains(x as usize) {
                        let w = choose|w: int| 0 <= w < before.len() && before[w] == x as usize;
                        assert(after[w] == x as usize);
                    }
                    if after.contains(x as usize) {
                        let w = choose|w: int| 0 <= w < after.len() && after[w] == x as usize;
                        assert(w != q);
                        assert(before[w] == x as usize);
                    }
                }
            }
        }
        q += 1;
    }
    assert(lis@.take(lis@.len() as int) =~= lis@);

    let ghost start = actions@;
    let mut index: usize = 0;
    while index < length
        invariant
            paired@ == p,
            length == p.len(),
            in_lis@.len() == length,
            forall|x: int| 0 <= x < length ==> #[trigger] in_lis@[x] == lis@.contains(x as usize),
            index <= length,
            actions@ == start + unkept_moves(p, destination_node, lis@, index as int),
        decreases length - index,
    {
        let (child_id, destination_position) = paired[index];
        if !in_lis[index] {
            actions.push(
                Action::MoveTree {
                    node: child_id,
                    parent: destination_node,
                    position: destination_position,
                },
            );
        }
        assert(actions@ =~= start + unkept_moves(p, destination_node, lis@, index + 1));
        index += 1;
    }
    Ghost(lis@)
}

/// Removes duplicate moves for the same node, keeping the first occurrence.
fn dedup_moves(actions: Vec<Action>) -> (r: Vec<Action>)
    ensures
        r@ == drop_repeat_moves(actions@),
{
    let ghost all = actions@;
    let n = actions.len();
    // Take the actions out back to front, so that popping them again yields
    // them in their original order.
    let mut pending = actions;
    let mut reversed: Vec<Action> = Vec::with_capacity(n);
    while pending.len() > 0
        invariant
            n == all.len(),
            pending@.len() + reversed@.len() == n,
            pending@ == all.take(pending@.len() as int),
            forall|j: int| 0 <= j < reversed@.len() ==> #[trigger] reversed@[j] == all[n - 1 - j],
        decreases pending@.len(),
    {
        let ghost before = pending@;
        let action = pending.pop().unwrap();
        proof {
            assert(pending@ =~= all.take(pending@.len() as int));
        }
        reversed.push(action);
    }
    let mut seen: HashSet<NodeId> = HashSet::new();
    let mut result: Vec<Action> = Vec::with_capacity(n);
    let mut index: usize = 0;
    while index < n
        invariant
            n == all.len(),
            index <= n,
            reversed@.len() == n - index,
            forall|j: int| 0 <= j < reversed@.len() ==> #[trigger] reversed@[j] == all[n - 1 - j],
            result@ == drop_repeat_moves(all.take(index as int)),
            forall|x: usize|
                #![trigger seen@.contains(x)]
                seen@.contains(x) <==> exists|k: int| 0 <= k < index && #[trigger] moves_node(all[k], x),
        decreases n - index,
    {
        let action = reversed.pop().unwrap();
        let ghost prefix = all.take(index + 1);
        proof {
            assert(action == all[index as int]);
            assert(prefix.drop_last() =~= all.take(index as int));
            assert(prefix.last() == all[index as int]);
            assert forall|k: int| 0 <= k < index implies prefix[k] == all[k] by {}
        }
        match &action {
            Action::MoveTree { node, .. } => {
                let fresh = seen.insert(*node);
                proof {
                    if !fresh {
                        let k = choose|k: int| 0 <= k < index && #[trigger] moves_node(all[k], *node);
                        assert(moves_node(prefix[k], *node));
                    } else {
                        assert forall|k: int| 0 <= k < prefix.len() - 1 implies !#[trigger] moves_node(
                            prefix[k],
                            *node,
                        ) by {
                            assert(prefix[k] == all[k]);
                        }
                    }
                }
                if fresh {
                    result.push(action);
                }
            },
            _ => result.push(action),
        }
        proof {
            assert forall|x: usize| #![trigger seen@.contains(x)] seen@.contains(x) <==> exists|k: int|
                0 <= k < index + 1 && #[trigger] moves_node(all[k], x) by {
                if moves_node(all[index as int], x) {
                    assert(0 <= index < index + 1);
                }
            }
        }
        index += 1;
    }
    assert(all.take(n as int) =~= all);
    result
}

} // verus!

//! Top-down (anchor) matching phase.
//!
//! Walks both trees from highest subtrees downward, mapping isomorphic
//! subtrees that share a structural hash. Ambiguous candidates are deferred
//! and resolved at the end using parent-context dice similarity.

use vstd::prelude::*;

use super::{dice_spec, dice_with_source_descendants, images_below, keeps_links};
use crate::mapping::Mapping;
use crate::ratio::Ratio;
use crate::tree::{
    in_subtree, kids, lemma_ancestors_ordered, lemma_child_lower, lemma_in_subtree_ge,
    lemma_in_subtree_lift, lemma_siblings_disjoint, lemma_subtree_size_bound, metadata_ok, parents,
    preorder, preorder_kids, same_tree, Node, NodeId, Tree,
};

verus! {

/// Default minimum height for top-down anchor matching.
pub const DEFAULT_MIN_HEIGHT: usize = 2;

/// Every queued node lies under `root` and sits in the bucket of its height.
spec fn queue_ok(b: Seq<Vec<usize>>, t: Seq<Node>, root: int) -> bool {
    forall|h: int, j: int|
        0 <= h < b.len() && 0 <= j < b[h]@.len() ==> {
            let x = #[trigger] b[h]@[j] as int;
            &&& in_subtree(parents(t), root, x)
            &&& t[x].height == h
        }
}

/// Buckets from `top` upward are empty.
spec fn empty_from(b: Seq<Vec<usize>>, top: int) -> bool {
    forall|h: int| top <= h < b.len() ==> #[trigger] b[h]@.len() == 0
}

/// The nodes among `ids` whose height is `g`, in their order.
spec fn at_height(t: Seq<Node>, ids: Seq<usize>, g: int) -> Seq<usize> {
    ids.filter(|c: usize| t[c as int].height == g)
}

/// The children of `nodes` whose height is `g`: those of the first node,
/// then those of the next, and so on.
spec fn children_at_height(t: Seq<Node>, nodes: Seq<usize>, g: int) -> Seq<usize>
    decreases nodes.len(),
{
    if nodes.len() == 0 {
        Seq::empty()
    } else {
        children_at_height(t, nodes.drop_last(), g) + at_height(t, t[nodes.last() as int].children@, g)
    }
}

/// Taking one more entry of `ids` adds it to the nodes of its height.
proof fn lemma_at_height_step(t: Seq<Node>, ids: Seq<usize>, k: int, g: int)
    requires
        0 <= k < ids.len(),
    ensures
        at_height(t, ids.take(k + 1), g) == if t[ids[k] as int].height == g {
            at_height(t, ids.take(k), g).push(ids[k])
        } else {
            at_height(t, ids.take(k), g)
        },
{
    super::lemma_filter_take_step(ids, |c: usize| t[c as int].height == g, k);
}

/// No entry taken, no node.
proof fn lemma_at_height_none(t: Seq<Node>, ids: Seq<usize>, g: int)
    ensures
        at_height(t, ids.take(0), g) == Seq::<usize>::empty(),
{
    super::lemma_filter_take_none(ids, |c: usize| t[c as int].height == g);
}

/// Follows the child positions of `path` down from `a` in `t1` and from `b`
/// in `t2` together, passing only through pairs of nodes with the same number
/// of children; `None` where the walk cannot go on.
pub open spec fn follow(t1: Seq<Node>, t2: Seq<Node>, a: int, b: int, path: Seq<int>) -> Option<(int, int)>
    decreases path.len(),
{
    if path.len() == 0 {
        Some((a, b))
    } else {
        match follow(t1, t2, a, b, path.drop_last()) {
            Some((x, y)) => {
                let k = path.last();
                if 0 <= x < t1.len() && 0 <= y < t2.len() && t1[x].children@.len()
                    == t2[y].children@.len() && 0 <= k < t1[x].children@.len() {
                    Some((t1[x].children@[k] as int, t2[y].children@[k] as int))
                } else {
                    None
                }
            },
            None => None,
        }
    }
}

/// `s` and `d` sit at the same place below `a` and `b`: one walk of child
/// positions leads from `a` to `s` and from `b` to `d` together.
pub open spec fn in_step(t1: Seq<Node>, t2: Seq<Node>, a: int, b: int, s: int, d: int) -> bool {
    exists|path: Seq<int>| #[trigger] follow(t1, t2, a, b, path) == Some((s, d))
}

/// `a` and `b` may anchor a top-down match: same kind, same structural hash
/// and same height, above `min_height`.
pub open spec fn anchor_ok(t1: Seq<Node>, t2: Seq<Node>, min_height: int, a: int, b: int) -> bool {
    &&& 0 <= a < t1.len()
    &&& 0 <= b < t2.len()
    &&& t1[a].kind@ == t2[b].kind@
    &&& t1[a].hash == t2[b].hash
    &&& t1[a].height == t2[b].height
    &&& t1[a].height > min_height
}

/// Every link of `new` that `old` lacks sits at the same place below some
/// anchor pair.
pub open spec fn anchored(t1: Seq<Node>, t2: Seq<Node>, min_height: int, old: Mapping, new: Mapping) -> bool {
    forall|s: usize| #[trigger]
        new.fwd().contains_key(s) && !old.fwd().contains_key(s) ==> exists|a: int, b: int|
            #[trigger] anchor_ok(t1, t2, min_height, a, b) && in_step(
                t1,
                t2,
                a,
                b,
                s as int,
                new.fwd()[s] as int,
            )
}

/// Equal structural hashes (with equal kinds) tell isomorphic nodes apart
/// from the rest in these two trees: nodes of equal kind and hash have as
/// many children, pairwise of equal kind and hash. A hash without
/// collisions on the two trees gives this.
pub open spec fn hash_faithful(t1: Seq<Node>, t2: Seq<Node>) -> bool {
    forall|a: int, b: int|
        0 <= a < t1.len() && 0 <= b < t2.len() && #[trigger] t1[a].hash == #[trigger] t2[b].hash && t1[a].kind@
            == t2[b].kind@ ==> t1[a].children@.len() == t2[b].children@.len() && forall|k: int|
            0 <= k < t1[a].children@.len() ==> {
                let c = #[trigger] t1[a].children@[k] as int;
                let e = t2[b].children@[k] as int;
                &&& 0 <= c < t1.len()
                &&& 0 <= e < t2.len()
                &&& t1[c].hash == t2[e].hash
                &&& t1[c].kind@ == t2[e].kind@
            }
}

/// The lockstep walk from two nodes of equal kind and hash meets only pairs
/// of equal kind and hash, when the hash is faithful.
proof fn lemma_follow_alike(t1: Seq<Node>, t2: Seq<Node>, a: int, b: int, path: Seq<int>)
    requires
        hash_faithful(t1, t2),
        0 <= a < t1.len(),
        0 <= b < t2.len(),
        t1[a].hash == t2[b].hash,
        t1[a].kind@ == t2[b].kind@,
        follow(t1, t2, a, b, path) is Some,
    ensures
        ({
            let (x, y) = follow(t1, t2, a, b, path).unwrap();
            &&& 0 <= x < t1.len()
            &&& 0 <= y < t2.len()
            &&& t1[x].hash == t2[y].hash
            &&& t1[x].kind@ == t2[y].kind@
        }),
    decreases path.len(),
{
    if path.len() > 0 {
        lemma_follow_alike(t1, t2, a, b, path.drop_last());
        let (x, y) = follow(t1, t2, a, b, path.drop_last()).unwrap();
        let k = path.last();
        assert(t1[x].hash == t2[y].hash && t1[x].kind@ == t2[y].kind@);
    }
}

/// Every link the top-down phase adds joins two nodes of equal kind and
/// structural hash, when the hash is faithful on the two trees.
pub proof fn lemma_anchored_links_alike(t1: Seq<Node>, t2: Seq<Node>, min_height: int, old: Mapping, new: Mapping)
    requires
        hash_faithful(t1, t2),
        anchored(t1, t2, min_height, old, new),
    ensures
        forall|s: usize| #[trigger]
            new.fwd().contains_key(s) && !old.fwd().contains_key(s) ==> t1[s as int].hash == t2[new.fwd()[s] as int].hash
                && t1[s as int].kind@ == t2[new.fwd()[s] as int].kind@,
{
    assert forall|s: usize| #[trigger] new.fwd().contains_key(s) && !old.fwd().contains_key(s) implies t1[s as int].hash
        == t2[new.fwd()[s] as int].hash && t1[s as int].kind@ == t2[new.fwd()[s] as int].kind@ by {
        let (a, b) = choose|a: int, b: int|
            #[trigger] anchor_ok(t1, t2, min_height, a, b) && in_step(t1, t2, a, b, s as int, new.fwd()[s] as int);
        let path = choose|path: Seq<int>| #[trigger] follow(t1, t2, a, b, path) == Some((s as int, new.fwd()[s] as int));
        lemma_follow_alike(t1, t2, a, b, path);
    }
}

/// The lockstep walk goes down both trees: it ends below its start on
/// each side, strictly below unless the walk is empty.
proof fn lemma_follow_descends(t1: Seq<Node>, t2: Seq<Node>, a: int, b: int, path: Seq<int>)
    requires
        crate::tree::arena_links(t1),
        crate::tree::arena_links(t2),
        0 <= a < t1.len(),
        0 <= b < t2.len(),
        follow(t1, t2, a, b, path) is Some,
    ensures
        ({
            let (s, d) = follow(t1, t2, a, b, path).unwrap();
            &&& in_subtree(parents(t1), a, s)
            &&& in_subtree(parents(t2), b, d)
            &&& path.len() > 0 ==> s > a && d > b
        }),
    decreases path.len(),
{
    assert(parents(t1).len() == t1.len());
    assert(parents(t2).len() == t2.len());
    if path.len() == 0 {
        assert(in_subtree(parents(t1), a, a));
        assert(in_subtree(parents(t2), b, b));
    } else {
        lemma_follow_descends(t1, t2, a, b, path.drop_last());
        let (x, y) = follow(t1, t2, a, b, path.drop_last()).unwrap();
        let k = path.last();
        let c = t1[x].children@[k] as int;
        let e = t2[y].children@[k] as int;
        lemma_in_subtree_ge(parents(t1), a, x);
        lemma_in_subtree_ge(parents(t2), b, y);
        assert(parents(t1)[c] == t1[c].parent);
        assert(parents(t2)[e] == t2[e].parent);
        assert(x < c && y < e);
    }
}

/// A proper ancestor is taller than its descendants.
proof fn lemma_height_above(t: Seq<Node>, root: int, z: int, x: int)
    requires
        crate::tree::arena_wf(t, root),
        t.len() <= usize::MAX,
        in_subtree(parents(t), root, z),
        in_subtree(parents(t), z, x),
        z != x,
    ensures
        t[z].height > t[x].height,
    decreases x - z,
{
    lemma_in_subtree_ge(parents(t), z, x);
    let k = crate::tree::lemma_under_some_child(t, z, x);
    let c = t[z].children@[k] as int;
    lemma_child_lower(t, root, z, k);
    assert(z < c);
    if c != x {
        lemma_in_subtree_ge(parents(t), c, x);
        lemma_height_above(t, root, c, x);
    }
}

/// A child of an opened node is among the opened children of its height.
proof fn lemma_in_children_at_height(t: Seq<Node>, nodes: Seq<usize>, i: int, k: int)
    requires
        0 <= i < nodes.len(),
        0 <= k < t[nodes[i] as int].children@.len(),
    ensures
        children_at_height(
            t,
            nodes,
            t[t[nodes[i] as int].children@[k] as int].height as int,
        ).contains(t[nodes[i] as int].children@[k]),
    decreases nodes.len(),
{
    broadcast use vstd::seq_lib::group_filter_ensures;

    let c = t[nodes[i] as int].children@[k];
    let g = t[c as int].height as int;
    let prev = children_at_height(t, nodes.drop_last(), g);
    let here = at_height(t, t[nodes.last() as int].children@, g);
    assert(children_at_height(t, nodes, g) == prev + here);
    if i == nodes.len() - 1 {
        assert(t[nodes.last() as int].children@[k] == c);
        assert((|c2: usize| t[c2 as int].height == g)(c));
        assert(here.contains(c));
        let q = choose|q: int| 0 <= q < here.len() && here[q] == c;
        assert((prev + here)[prev.len() + q] == c);
    } else {
        assert(nodes.drop_last()[i] == nodes[i]);
        lemma_in_children_at_height(t, nodes.drop_last(), i, k);
        let q = choose|q: int| 0 <= q < prev.len() && prev[q] == c;
        assert((prev + here)[q] == c);
    }
}

/// Some node queued in `b` is `x` or lies above it: `x` is still to be
/// reached by the walk down the queue.
pub open spec fn pending(b: Seq<Vec<usize>>, t: Seq<Node>, x: int) -> bool {
    exists|g: int, j: int| 0 <= g < b.len() && 0 <= j < b[g]@.len() && #[trigger] in_subtree(parents(t), b[g]@[j] as int, x)
}

/// Opening the nodes of the top bucket keeps `x` pending when `x` itself
/// was not among them and every node above `x` among them was opened.
proof fn lemma_pending_open(
    t: Seq<Node>,
    root: int,
    ob: Seq<Vec<usize>>,
    nb: Seq<Vec<usize>>,
    h: int,
    opened: Seq<usize>,
    x: int,
)
    requires
        crate::tree::arena_wf(t, root),
        t.len() <= usize::MAX,
        queue_ok(ob, t, root),
        0 <= h < ob.len(),
        nb.len() == ob.len(),
        empty_from(ob, h + 1),
        pending(ob, t, x),
        !ob[h]@.contains(x as usize),
        0 <= x < t.len(),
        forall|j: int|
            0 <= j < ob[h]@.len() && in_subtree(parents(t), #[trigger] ob[h]@[j] as int, x) ==> opened.contains(ob[h]@[j]),
        forall|g: int| 0 <= g < h ==> #[trigger] nb[g]@ == ob[g]@ + children_at_height(t, opened, g),
    ensures
        pending(nb, t, x),
{
    let par = parents(t);
    let (g, j) = choose|g: int, j: int| 0 <= g < ob.len() && 0 <= j < ob[g]@.len() && #[trigger] in_subtree(par, ob[g]@[j] as int, x);
    let z = ob[g]@[j] as int;
    assert(in_subtree(par, root, z) && t[z].height == g);
    if g < h {
        assert(nb[g]@[j] == ob[g]@[j]);
        assert(in_subtree(par, nb[g]@[j] as int, x));
    } else {
        assert(g == h) by {
            if g > h {
                assert(ob[g]@.len() == 0);
            }
        }
        assert(z != x) by {
            if z == x {
                assert(ob[h]@[j] == x as usize);
            }
        }
        assert(opened.contains(ob[h]@[j]));
        let i = choose|i: int| 0 <= i < opened.len() && opened[i] == ob[h]@[j];
        lemma_in_subtree_ge(par, z, x);
        let k = crate::tree::lemma_under_some_child(t, z, x);
        let c = t[z].children@[k];
        lemma_child_lower(t, root, z, k);
        lemma_in_children_at_height(t, opened, i, k);
        let gc = t[c as int].height as int;
        assert(0 <= gc < h);
        let added = children_at_height(t, opened, gc);
        let q = choose|q: int| 0 <= q < added.len() && added[q] == c;
        assert(nb[gc]@ == ob[gc]@ + added);
        assert(nb[gc]@[ob[gc]@.len() + q] == c);
        assert(in_subtree(par, nb[gc]@[ob[gc]@.len() + q] as int, x));
    }
}

/// `x` and `y` are each other's only isomorphic counterpart, tall enough to
/// anchor: both lie under their roots, they may anchor a match, no other
/// node of either tree is isomorphic to the one of the pair, and no node
/// above either of them is isomorphic to any node of the other tree.
pub open spec fn unique_iso_pair(t1: Seq<Node>, t2: Seq<Node>, r1: int, r2: int, min_height: int, x: int, y: int) -> bool {
    &&& in_subtree(parents(t1), r1, x)
    &&& in_subtree(parents(t2), r2, y)
    &&& anchor_ok(t1, t2, min_height, x, y)
    &&& forall|d: int| 0 <= d < t2.len() && #[trigger] iso(t1, t2, x, d) ==> d == y
    &&& forall|s: int| 0 <= s < t1.len() && #[trigger] iso(t1, t2, s, y) ==> s == x
    &&& forall|a: int, b: int|
        0 <= a < t1.len() && 0 <= b < t2.len() && a != x && #[trigger] in_subtree(parents(t1), a, x) ==> !#[trigger] iso(
            t1,
            t2,
            a,
            b,
        )
    &&& forall|a: int, b: int|
        0 <= a < t1.len() && 0 <= b < t2.len() && b != y && #[trigger] in_subtree(parents(t2), b, y) ==> !#[trigger] iso(
            t1,
            t2,
            a,
            b,
        )
}

/// A queued node above `x` is at least as tall as `x`, so `x` is no taller
/// than the top of a queue that holds nothing above `top`.
proof fn lemma_pending_top(b: Seq<Vec<usize>>, t: Seq<Node>, root: int, x: int, top: int)
    requires
        crate::tree::arena_wf(t, root),
        t.len() <= usize::MAX,
        queue_ok(b, t, root),
        pending(b, t, x),
        empty_from(b, top + 1),
    ensures
        t[x].height <= top,
        exists|g: int| t[x].height <= g <= top && 0 <= g < b.len() && #[trigger] b[g]@.len() > 0,
{
    let par = parents(t);
    let (g, j) = choose|g: int, j: int| 0 <= g < b.len() && 0 <= j < b[g]@.len() && #[trigger] in_subtree(par, b[g]@[j] as int, x);
    let z = b[g]@[j] as int;
    assert(in_subtree(par, root, z) && t[z].height == g);
    if z != x {
        lemma_height_above(t, root, z, x);
    }
    if g > top {
        assert(b[g]@.len() == 0);
    }
}

/// A pending node of height `h` where nothing queued is taller than `h`
/// is itself queued.
proof fn lemma_pending_at_top(b: Seq<Vec<usize>>, t: Seq<Node>, root: int, x: int, h: int)
    requires
        crate::tree::arena_wf(t, root),
        t.len() <= usize::MAX,
        queue_ok(b, t, root),
        pending(b, t, x),
        empty_from(b, h + 1),
        t[x].height == h,
        0 <= h < b.len(),
    ensures
        b[h]@.contains(x as usize),
{
    let par = parents(t);
    let (g, j) = choose|g: int, j: int| 0 <= g < b.len() && 0 <= j < b[g]@.len() && #[trigger] in_subtree(par, b[g]@[j] as int, x);
    let z = b[g]@[j] as int;
    assert(in_subtree(par, root, z) && t[z].height == g);
    if z != x {
        lemma_height_above(t, root, z, x);
        assert(b[g]@.len() == 0);
    }
    assert(b[h]@[j] == x as usize);
}

/// A link of `m` that touches a unique isomorphic pair, made since `start`,
/// joins the pair: the anchor it sits below can only be the pair itself.
proof fn lemma_unique_linked(
    t1: Seq<Node>,
    t2: Seq<Node>,
    r1: int,
    r2: int,
    min_height: int,
    start: Mapping,
    m: Mapping,
    x: int,
    y: int,
)
    requires
        crate::tree::arena_links(t1),
        crate::tree::arena_links(t2),
        start.wf(),
        m.wf(),
        keeps_links(start, m),
        anchored(t1, t2, min_height, start, m),
        0 <= r1 < t1.len() <= usize::MAX,
        0 <= r2 < t2.len() <= usize::MAX,
        unique_iso_pair(t1, t2, r1, r2, min_height, x, y),
        !start.fwd().contains_key(x as usize),
        !start.bwd().contains_key(y as usize),
        m.fwd().contains_key(x as usize) || m.bwd().contains_key(y as usize),
    ensures
        m.fwd().contains_key(x as usize),
        m.fwd()[x as usize] == y as usize,
{
    lemma_in_subtree_ge(parents(t1), r1, x);
    lemma_in_subtree_ge(parents(t2), r2, y);
    assert(parents(t1).len() == t1.len());
    assert(parents(t2).len() == t2.len());
    let s: usize = if m.fwd().contains_key(x as usize) {
        x as usize
    } else {
        m.bwd()[y as usize]
    };
    assert(m.fwd().contains_key(s));
    assert(!start.fwd().contains_key(s)) by {
        if start.fwd().contains_key(s) {
            if s == x as usize {
            } else {
                assert(m.fwd()[s] == y as usize);
                assert(start.fwd()[s] == m.fwd()[s]);
                assert(start.bwd().contains_key(start.fwd()[s]));
            }
        }
    }
    let d = m.fwd()[s];
    let (a, b) = choose|a: int, b: int|
        #[trigger] anchor_ok(t1, t2, min_height, a, b) && in_step(t1, t2, a, b, s as int, d as int);
    let path = choose|path: Seq<int>| #[trigger] follow(t1, t2, a, b, path) == Some((s as int, d as int));
    lemma_follow_descends(t1, t2, a, b, path);
    assert(iso(t1, t2, a, b));
    if path.len() == 0 {
        assert(a == s as int && b == d as int);
        if s == x as usize {
            assert(iso(t1, t2, x, d as int));
            assert(d as int == y);
        } else {
            assert(iso(t1, t2, s as int, y));
            assert(d == y as usize);
            assert(s as int == x);
        }
    } else {
        if s == x as usize {
            assert(a != x && in_subtree(parents(t1), a, x));
            assert(!iso(t1, t2, a, b));
        } else {
            assert(d == y as usize);
            assert(b != y && in_subtree(parents(t2), b, y));
            assert(!iso(t1, t2, a, b));
        }
    }
}

/// Law: growth anchored in the top-down way adds no link when no node of
/// the source tree taller than `min_height` shares its kind and hash with
/// a node of the destination tree.
pub proof fn lemma_no_anchor_no_link(t1: Seq<Node>, t2: Seq<Node>, min_height: int, old: Mapping, new: Mapping)
    requires
        anchored(t1, t2, min_height, old, new),
        forall|a: int, b: int|
            0 <= a < t1.len() && 0 <= b < t2.len() && t1[a].height > min_height ==> !#[trigger] iso(t1, t2, a, b),
    ensures
        forall|s: usize| #[trigger] new.fwd().contains_key(s) ==> old.fwd().contains_key(s),
{
    assert forall|s: usize| #[trigger] new.fwd().contains_key(s) implies old.fwd().contains_key(s) by {
        if !old.fwd().contains_key(s) {
            let (a, b) = choose|a: int, b: int|
                #[trigger] anchor_ok(t1, t2, min_height, a, b) && in_step(t1, t2, a, b, s as int, new.fwd()[s] as int);
            assert(iso(t1, t2, a, b));
        }
    }
}

/// Anchored growth composes.
proof fn lemma_anchored_trans(t1: Seq<Node>, t2: Seq<Node>, min_height: int, a: Mapping, b: Mapping, c: Mapping)
    requires
        keeps_links(a, b),
        keeps_links(b, c),
        anchored(t1, t2, min_height, a, b),
        anchored(t1, t2, min_height, b, c),
    ensures
        anchored(t1, t2, min_height, a, c),
{
    assert forall|s: usize| #[trigger]
        c.fwd().contains_key(s) && !a.fwd().contains_key(s) implies exists|x: int, y: int|
            #[trigger] anchor_ok(t1, t2, min_height, x, y) && in_step(t1, t2, x, y, s as int, c.fwd()[s] as int) by {
        if b.fwd().contains_key(s) {
            assert(c.fwd()[s] == b.fwd()[s]);
        }
    }
}

/// Neither side of `m` touches the subtree of `a`.
pub open spec fn untouched(t: Seq<Node>, m: Mapping, a: int) -> bool {
    forall|y: int| #[trigger]
        in_subtree(parents(t), a, y) ==> !m.fwd().contains_key(y as usize) && !m.bwd().contains_key(y as usize)
}

/// `m` links every node of the subtree of `a` to itself.
pub open spec fn links_itself(t: Seq<Node>, m: Mapping, a: int) -> bool {
    forall|y: int| #[trigger]
        in_subtree(parents(t), a, y) ==> m.fwd().contains_key(y as usize) && m.fwd()[y as usize] == y
}

/// The children of `x`, last first, each paired with itself: what the
/// lockstep walk of a tree against itself pushes for `x`.
spec fn self_pairs(t: Seq<Node>, x: int) -> Seq<(usize, usize)> {
    let c = t[x].children@;
    Seq::new(c.len(), |q: int| (c[c.len() - 1 - q], c[c.len() - 1 - q]))
}

/// The state of the lockstep walk of the subtree of `a` against itself:
/// each pending pair is a node under `a` paired with itself, no pending node
/// lies under another, nothing under a pending node is linked yet, and every
/// node under `a` is linked to itself or still pending.
spec fn self_walk(t: Seq<Node>, a: int, stack: Seq<(usize, usize)>, m: Mapping) -> bool {
    let par = parents(t);
    &&& forall|j: int|
        0 <= j < stack.len() ==> (#[trigger] stack[j]).0 == stack[j].1 && in_subtree(par, a, stack[j].0 as int)
    &&& forall|j1: int, j2: int|
        0 <= j1 < stack.len() && 0 <= j2 < stack.len() && j1 != j2 ==> !in_subtree(
            par,
            (#[trigger] stack[j1]).0 as int,
            (#[trigger] stack[j2]).0 as int,
        )
    &&& forall|j: int| 0 <= j < stack.len() ==> untouched(t, m, (#[trigger] stack[j]).0 as int)
    &&& forall|y: int| #[trigger]
        in_subtree(par, a, y) ==> (m.fwd().contains_key(y as usize) && m.fwd()[y as usize] == y) || exists|j: int|
            0 <= j < stack.len() && in_subtree(par, (#[trigger] stack[j]).0 as int, y)
}

/// One step of the lockstep walk of a tree against itself: linking the top
/// pending node to itself and pending its children keeps [`self_walk`].
proof fn lemma_self_walk_step(
    t: Seq<Node>,
    a: int,
    rest: Seq<(usize, usize)>,
    x: usize,
    before: Mapping,
    after: Mapping,
)
    requires
        crate::tree::arena_links(t),
        t.len() <= usize::MAX,
        self_walk(t, a, rest.push((x, x)), before),
        after.fwd() == before.fwd().insert(x, x),
        after.bwd() == before.bwd().insert(x, x),
    ensures
        self_walk(t, a, rest + self_pairs(t, x as int), after),
{
    let par = parents(t);
    let old_stack = rest.push((x, x));
    let c = t[x as int].children@;
    let n = c.len();
    let kp = self_pairs(t, x as int);
    let stack = rest + kp;
    let rl = rest.len() as int;
    assert(old_stack[rl] == (x, x));
    assert(in_subtree(par, a, x as int));
    lemma_in_subtree_ge(par, a, x as int);
    assert(untouched(t, before, x as int));
    assert(in_subtree(par, x as int, x as int));
    assert(!before.fwd().contains_key(x));
    // Each pushed child hangs from `x`.
    assert forall|k: int| 0 <= k < n implies {
        let ci = #[trigger] c[k] as int;
        &&& x < ci < t.len()
        &&& par[ci] == Some(x)
        &&& in_subtree(par, x as int, ci)
        &&& in_subtree(par, a, ci)
    } by {
        let ci = c[k] as int;
        assert(t[ci].parent == Some(x));
        assert(par[ci] == t[ci].parent);
        assert(in_subtree(par, ci, ci));
        lemma_in_subtree_lift(par, x as int, ci, ci);
        crate::tree::lemma_in_subtree_trans(par, a, x as int, ci);
    }
    assert forall|j: int| 0 <= j < stack.len() implies (#[trigger] stack[j]).0 == stack[j].1 && in_subtree(
        par,
        a,
        stack[j].0 as int,
    ) by {
        if j < rl {
            assert(stack[j] == old_stack[j]);
        } else {
            assert(stack[j] == kp[j - rl]);
        }
    }
    assert forall|j1: int, j2: int|
        0 <= j1 < stack.len() && 0 <= j2 < stack.len() && j1 != j2 implies !in_subtree(
        par,
        (#[trigger] stack[j1]).0 as int,
        (#[trigger] stack[j2]).0 as int,
    ) by {
        let u = stack[j1].0 as int;
        let v = stack[j2].0 as int;
        if j1 < rl && j2 < rl {
            assert(stack[j1] == old_stack[j1]);
            assert(stack[j2] == old_stack[j2]);
        } else if j1 < rl {
            // `u` pending before, `v` a child of `x`.
            assert(stack[j1] == old_stack[j1]);
            assert(stack[j2] == kp[j2 - rl]);
            assert(!in_subtree(par, u, x as int));
            assert(!in_subtree(par, x as int, u));
            if in_subtree(par, u, v) {
                if u <= x {
                    lemma_ancestors_ordered(par, u, x as int, v);
                } else {
                    lemma_ancestors_ordered(par, x as int, u, v);
                }
            }
        } else if j2 < rl {
            // `u` a child of `x`, `v` pending before.
            assert(stack[j1] == kp[j1 - rl]);
            assert(stack[j2] == old_stack[j2]);
            assert(!in_subtree(par, x as int, v));
            if in_subtree(par, u, v) {
                crate::tree::lemma_in_subtree_trans(par, x as int, u, v);
            }
        } else {
            // Two different children of `x`.
            assert(stack[j1] == kp[j1 - rl]);
            assert(stack[j2] == kp[j2 - rl]);
            let q1 = n - 1 - (j1 - rl);
            let q2 = n - 1 - (j2 - rl);
            assert(u == c[q1] && v == c[q2]);
            if q1 < q2 {
                assert(c[q1] < c[q2]);
                if in_subtree(par, u, v) {
                    assert(in_subtree(par, v, v));
                    lemma_siblings_disjoint(t, x as int, u, v, v);
                }
            } else {
                assert(c[q2] < c[q1]);
                if in_subtree(par, u, v) {
                    lemma_in_subtree_ge(par, u, v);
                }
            }
        }
    }
    assert forall|j: int| 0 <= j < stack.len() implies untouched(t, after, (#[trigger] stack[j]).0 as int) by {
        let u = stack[j].0 as int;
        if j < rl {
            assert(stack[j] == old_stack[j]);
            assert(untouched(t, before, u));
            assert(!in_subtree(par, u, x as int));
            assert forall|y: int| #[trigger] in_subtree(par, u, y) implies !after.fwd().contains_key(y as usize)
                && !after.bwd().contains_key(y as usize) by {
                assert(y != x);
            }
        } else {
            assert(stack[j] == kp[j - rl]);
            assert forall|y: int| #[trigger] in_subtree(par, u, y) implies !after.fwd().contains_key(y as usize)
                && !after.bwd().contains_key(y as usize) by {
                crate::tree::lemma_in_subtree_trans(par, x as int, u, y);
                lemma_in_subtree_ge(par, u, y);
            }
        }
    }
    assert forall|y: int| #[trigger] in_subtree(par, a, y) implies (after.fwd().contains_key(y as usize)
        && after.fwd()[y as usize] == y) || exists|j: int|
        0 <= j < stack.len() && in_subtree(par, (#[trigger] stack[j]).0 as int, y) by {
        if before.fwd().contains_key(y as usize) && before.fwd()[y as usize] == y {
            assert(y != x);
        } else if y == x {
        } else {
            let j = choose|j: int| 0 <= j < old_stack.len() && in_subtree(par, (#[trigger] old_stack[j]).0 as int, y);
            if j < rl {
                assert(stack[j] == old_stack[j]);
            } else {
                let k = crate::tree::lemma_under_some_child(t, x as int, y);
                let q = n - 1 - k;
                assert(kp[q].0 == c[k]);
                assert(stack[rl + q] == kp[q]);
            }
        }
    }
}

/// Keeping links keeps a subtree linked to itself.
proof fn lemma_links_itself_kept(t: Seq<Node>, a: int, m1: Mapping, m2: Mapping)
    requires
        links_itself(t, m1, a),
        keeps_links(m1, m2),
    ensures
        links_itself(t, m2, a),
{
    assert forall|y: int| #[trigger] in_subtree(parents(t), a, y) implies m2.fwd().contains_key(y as usize)
        && m2.fwd()[y as usize] == y by {
        assert(m1.fwd().contains_key(y as usize));
    }
}

/// Links made below one anchor pair, in step, are anchored.
proof fn lemma_anchor_step(t1: Seq<Node>, t2: Seq<Node>, min_height: int, old: Mapping, new: Mapping, a: int, b: int)
    requires
        anchor_ok(t1, t2, min_height, a, b),
        forall|s: usize| #[trigger]
            new.fwd().contains_key(s) && !old.fwd().contains_key(s) ==> in_step(
                t1,
                t2,
                a,
                b,
                s as int,
                new.fwd()[s] as int,
            ),
    ensures
        anchored(t1, t2, min_height, old, new),
{
}

/// Priority queue keyed by node height, with max-heap behaviour.
struct HeightPQ {
    buckets: Vec<Vec<NodeId>>,
}

impl HeightPQ {
    /// An empty queue for heights below `capacity`.
    fn new(capacity: usize) -> (q: Self)
        ensures
            q.buckets@.len() == capacity,
            empty_from(q.buckets@, 0),
    {
        let mut buckets: Vec<Vec<NodeId>> = Vec::with_capacity(capacity);
        let mut h: usize = 0;
        while h < capacity
            invariant
                h <= capacity,
                buckets@.len() == h,
                empty_from(buckets@, 0),
            decreases capacity - h,
        {
            buckets.push(Vec::new());
            h += 1;
        }
        HeightPQ { buckets }
    }

    fn push(&mut self, tree: &Tree, node_id: NodeId)
        requires
            tree.wf(),
            queue_ok(old(self).buckets@, tree.arena(), tree.root_id()),
            in_subtree(parents(tree.arena()), tree.root_id(), node_id as int),
            tree.arena()[node_id as int].height < old(self).buckets@.len(),
        ensures
            final(self).buckets@.len() == old(self).buckets@.len(),
            queue_ok(final(self).buckets@, tree.arena(), tree.root_id()),
            forall|h: int|
                0 <= h < old(self).buckets@.len() && h != tree.arena()[node_id as int].height
                    ==> #[trigger] final(self).buckets@[h]@ == old(self).buckets@[h]@,
            final(self).buckets@[tree.arena()[node_id as int].height as int]@ == old(self).buckets@[tree.arena()[
                node_id as int
            ].height as int]@.push(node_id),
    {
        proof {
            lemma_in_subtree_ge(parents(tree.arena()), tree.root_id(), node_id as int);
        }
        let height = tree.node(node_id).height;
        let mut bucket = Vec::new();
        std::mem::swap(&mut bucket, &mut self.buckets[height]);
        bucket.push(node_id);
        std::mem::swap(&mut bucket, &mut self.buckets[height]);
        proof {
            let b = self.buckets@;
            assert forall|h: int, j: int| 0 <= h < b.len() && 0 <= j < b[h]@.len() implies {
                let x = #[trigger] b[h]@[j] as int;
                &&& in_subtree(parents(tree.arena()), tree.root_id(), x)
                &&& tree.arena()[x].height == h
            } by {
                if h != height as int {
                    assert(b[h]@ == old(self).buckets@[h]@);
                } else if j < old(self).buckets@[h]@.len() {
                    assert(b[h]@[j] == old(self).buckets@[h]@[j]);
                }
            }
        }
    }

    /// The largest height with a queued node.
    fn peek_height(&self) -> (r: Option<usize>)
        ensures
            match r {
                Some(h) => h < self.buckets@.len() && self.buckets@[h as int]@.len() > 0 && empty_from(
                    self.buckets@,
                    h + 1,
                ),
                None => empty_from(self.buckets@, 0),
            },
    {
        let mut h: usize = self.buckets.len();
        while h > 0
            invariant
                h <= self.buckets@.len(),
                empty_from(self.buckets@, h as int),
            decreases h,
        {
            h -= 1;
            if self.buckets[h].len() > 0 {
                return Some(h);
            }
        }
        None
    }

    /// Removes and returns every node of the largest queued height.
    fn pop_max(&mut self) -> (r: Vec<NodeId>)
        ensures
            final(self).buckets@.len() == old(self).buckets@.len(),
            match old(self).peek_spec() {
                Some(h) => {
                    &&& r@ == old(self).buckets@[h]@
                    &&& final(self).buckets@[h]@.len() == 0
                    &&& forall|g: int|
                        0 <= g < old(self).buckets@.len() && g != h ==> #[trigger] final(self).buckets@[g]@
                            == old(self).buckets@[g]@
                },
                None => r@.len() == 0 && final(self).buckets@ == old(self).buckets@,
            },
    {
        match self.peek_height() {
            Some(max_height) => {
                let mut bucket = Vec::new();
                std::mem::swap(&mut bucket, &mut self.buckets[max_height]);
                proof {
                    assert(old(self).peek_spec() == Some(max_height as int)) by {
                        old(self).lemma_peek_spec(max_height as int);
                    }
                }
                bucket
            },
            None => {
                proof {
                    old(self).lemma_peek_spec_none();
                }
                Vec::new()
            },
        }
    }

    /// The largest height with a queued node, if any.
    spec fn peek_spec(&self) -> Option<int> {
        if exists|h: int|
            0 <= h < self.buckets@.len() && #[trigger] self.buckets@[h]@.len() > 0 && empty_from(
                self.buckets@,
                h + 1,
            ) {
            Some(
                choose|h: int|
                    0 <= h < self.buckets@.len() && #[trigger] self.buckets@[h]@.len() > 0
                        && empty_from(self.buckets@, h + 1),
            )
        } else {
            None
        }
    }

    proof fn lemma_peek_spec(&self, h: int)
        requires
            0 <= h < self.buckets@.len(),
            self.buckets@[h]@.len() > 0,
            empty_from(self.buckets@, h + 1),
        ensures
            self.peek_spec() == Some(h),
    {
        let g = choose|g: int|
            0 <= g < self.buckets@.len() && #[trigger] self.buckets@[g]@.len() > 0 && empty_from(
                self.buckets@,
                g + 1,
            );
        if g < h {
            assert(self.buckets@[h]@.len() == 0);
        } else if g > h {
            assert(self.buckets@[g]@.len() == 0);
        }
    }

    proof fn lemma_peek_spec_none(&self)
        requires
            empty_from(self.buckets@, 0),
        ensures
            self.peek_spec() is None,
    {
        if exists|h: int|
            0 <= h < self.buckets@.len() && #[trigger] self.buckets@[h]@.len() > 0 && empty_from(
                self.buckets@,
                h + 1,
            ) {
            let h = choose|h: int|
                0 <= h < self.buckets@.len() && #[trigger] self.buckets@[h]@.len() > 0
                    && empty_from(self.buckets@, h + 1);
            assert(self.buckets@[h]@.len() == 0);
        }
    }

    /// Queues the children of `node_id`.
    fn open(&mut self, tree: &Tree, node_id: NodeId)
        requires
            tree.wf(),
            queue_ok(old(self).buckets@, tree.arena(), tree.root_id()),
            in_subtree(parents(tree.arena()), tree.root_id(), node_id as int),
            tree.arena()[node_id as int].height < old(self).buckets@.len(),
        ensures
            final(self).buckets@.len() == old(self).buckets@.len(),
            queue_ok(final(self).buckets@, tree.arena(), tree.root_id()),
            forall|h: int|
                tree.arena()[node_id as int].height <= h < old(self).buckets@.len()
                    ==> #[trigger] final(self).buckets@[h]@ == old(self).buckets@[h]@,
            forall|g: int|
                0 <= g < old(self).buckets@.len() ==> #[trigger] final(self).buckets@[g]@ == old(self).buckets@[g]@
                    + at_height(tree.arena(), tree.arena()[node_id as int].children@, g),
    {
        let ghost t = tree.arena();
        let ghost hx = t[node_id as int].height as int;
        proof {
            lemma_in_subtree_ge(parents(t), tree.root_id(), node_id as int);
        }
        let children = &tree.node(node_id).children;
        let count = children.len();
        let mut k: usize = 0;
        proof {
            assert forall|g: int| 0 <= g < old(self).buckets@.len() implies #[trigger] self.buckets@[g]@
                == old(self).buckets@[g]@ + at_height(t, children@.take(0), g) by {
                lemma_at_height_none(t, children@, g);
                assert(old(self).buckets@[g]@ + Seq::<usize>::empty() =~= old(self).buckets@[g]@);
            }
        }
        while k < count
            invariant
                tree.wf(),
                t == tree.arena(),
                node_id < t.len(),
                in_subtree(parents(t), tree.root_id(), node_id as int),
                *children == t[node_id as int].children,
                count == children@.len(),
                hx == t[node_id as int].height,
                hx < old(self).buckets@.len(),
                k <= count,
                self.buckets@.len() == old(self).buckets@.len(),
                queue_ok(self.buckets@, t, tree.root_id()),
                forall|h: int|
                    hx <= h < old(self).buckets@.len() ==> #[trigger] self.buckets@[h]@ == old(
                        self,
                    ).buckets@[h]@,
                forall|g: int|
                    0 <= g < old(self).buckets@.len() ==> #[trigger] self.buckets@[g]@ == old(self).buckets@[g]@
                        + at_height(t, children@.take(k as int), g),
            decreases count - k,
        {
            let child_id = children[k];
            proof {
                lemma_child_lower(t, tree.root_id(), node_id as int, k as int);
            }
            let ghost before = self.buckets@;
            self.push(tree, child_id);
            proof {
                assert forall|g: int| 0 <= g < old(self).buckets@.len() implies #[trigger] self.buckets@[g]@
                    == old(self).buckets@[g]@ + at_height(t, children@.take(k + 1), g) by {
                    lemma_at_height_step(t, children@, k as int, g);
                    assert(before[g]@ == old(self).buckets@[g]@ + at_height(t, children@.take(k as int), g));
                    if t[child_id as int].height == g {
                        assert(old(self).buckets@[g]@ + at_height(t, children@.take(k as int), g).push(child_id)
                            =~= (old(self).buckets@[g]@ + at_height(t, children@.take(k as int), g)).push(child_id));
                    }
                }
            }
            k += 1;
        }
        proof {
            assert(children@.take(count as int) =~= children@);
        }
    }
}

/// Runs the top-down phase, extending `mapping` in place.
///
/// Subtrees whose height is at most `min_height` are deferred to the
/// bottom-up phase. Every pair of isomorphic subtrees taller than that which
/// has no rival on either side, and nothing isomorphic above it, ends up
/// linked. The destination root must have no parent: ambiguous candidates
/// are ranked by the similarity of their parents, which reads the size of
/// the parent's subtree, and only nodes under the root carry one.
pub fn match_top_down(
    source_tree: &Tree,
    destination_tree: &Tree,
    mapping: &mut Mapping,
    min_height: usize,
)
    requires
        source_tree.wf(),
        destination_tree.wf(),
        destination_tree.arena()[destination_tree.root_id()].parent is None,
        old(mapping).wf(),
        old(mapping).fits(source_tree.arena().len(), destination_tree.arena().len()),
        source_tree.arena().len() + destination_tree.arena().len() <= usize::MAX / 2,
    ensures
        final(mapping).wf(),
        final(mapping).fits(source_tree.arena().len(), destination_tree.arena().len()),
        keeps_links(*old(mapping), *final(mapping)),
        anchored(source_tree.arena(), destination_tree.arena(), min_height as int, *old(mapping), *final(mapping)),
        same_tree(source_tree.arena(), destination_tree.arena()) && source_tree.root_id()
            == destination_tree.root_id() && untouched(source_tree.arena(), *old(mapping), source_tree.root_id())
            && source_tree.arena()[source_tree.root_id()].height > min_height ==> links_itself(
            source_tree.arena(),
            *final(mapping),
            source_tree.root_id(),
        ),
        forall|x: int, y: int|
            #[trigger] unique_iso_pair(
                source_tree.arena(),
                destination_tree.arena(),
                source_tree.root_id(),
                destination_tree.root_id(),
                min_height as int,
                x,
                y,
            ) && !old(mapping).fwd().contains_key(x as usize) && !old(mapping).bwd().contains_key(y as usize)
                ==> final(mapping).fwd().contains_key(x as usize) && final(mapping).fwd()[x as usize] == y as usize,
{
    let ghost t1 = source_tree.arena();
    let ghost t2 = destination_tree.arena();
    let ghost n1 = t1.len();
    let ghost n2 = t2.len();
    let ghost start = *mapping;
    let root1 = source_tree.root();
    let root2 = destination_tree.root();
    proof {
        assert(parents(t1).len() == n1);
        assert(parents(t2).len() == n2);
        assert(in_subtree(parents(t1), root1 as int, root1 as int));
        assert(in_subtree(parents(t2), root2 as int, root2 as int));
        assert(metadata_ok(t1, root1 as int));
        assert(metadata_ok(t2, root2 as int));
        crate::tree::lemma_height_le_size(kids(t1), root1 as int);
        crate::tree::lemma_height_le_size(kids(t2), root2 as int);
        lemma_subtree_size_bound(t1, root1 as int);
        lemma_subtree_size_bound(t2, root2 as int);
    }
    let capacity1 = source_tree.node(root1).height + 1;
    let capacity2 = destination_tree.node(root2).height + 1;
    let mut source_queue = HeightPQ::new(capacity1);
    let mut destination_queue = HeightPQ::new(capacity2);
    source_queue.push(source_tree, root1);
    destination_queue.push(destination_tree, root2);

    let mut ambiguous: Vec<(NodeId, NodeId)> = Vec::new();
    let ghost mut top1: int = capacity1 as int;
    let ghost mut top2: int = capacity2 as int;
    // A tree matched against itself, with nothing of it linked yet: the
    // first round links it in full.
    let ghost r = root1 as int;
    let ghost r2 = root2 as int;
    let ghost mh = min_height as int;
    let ghost top = t1[r].height as int;
    let ghost ident = same_tree(t1, t2) && r == destination_tree.root_id() && untouched(t1, start, r)
        && t1[r].height > min_height;
    proof {
        let g1 = t1[r].height as int;
        let g2 = t2[r2].height as int;
        assert(source_queue.buckets@[g1]@[0] == root1);
        assert(destination_queue.buckets@[g2]@[0] == root2);
        assert forall|x: int, y: int|
            #[trigger] unique_iso_pair(t1, t2, r, r2, mh, x, y) && !start.fwd().contains_key(x as usize)
                && !start.bwd().contains_key(y as usize) implies pending(source_queue.buckets@, t1, x) && pending(
            destination_queue.buckets@,
            t2,
            y,
        ) by {
            assert(in_subtree(parents(t1), source_queue.buckets@[g1]@[0] as int, x));
            assert(in_subtree(parents(t2), destination_queue.buckets@[g2]@[0] as int, y));
        }
        if ident {
            crate::tree::lemma_same_tree_metadata(t1, t2, r);
            assert(source_queue.buckets@[top]@ =~= seq![root1]);
            assert(destination_queue.buckets@[top]@ =~= seq![root1]);
        }
    }

    loop
        invariant
            source_tree.wf(),
            destination_tree.wf(),
            t2[destination_tree.root_id()].parent is None,
            t1 == source_tree.arena(),
            t2 == destination_tree.arena(),
            n1 == t1.len(),
            n2 == t2.len(),
            n1 + n2 <= usize::MAX / 2,
            mapping.wf(),
            mapping.fits(n1, n2),
            keeps_links(start, *mapping),
            anchored(t1, t2, min_height as int, start, *mapping),
            forall|j: int|
                0 <= j < ambiguous@.len() ==> anchor_ok(
                    t1,
                    t2,
                    min_height as int,
                    (#[trigger] ambiguous@[j]).0 as int,
                    ambiguous@[j].1 as int,
                ),
            source_queue.buckets@.len() == capacity1,
            destination_queue.buckets@.len() == capacity2,
            queue_ok(source_queue.buckets@, t1, source_tree.root_id()),
            queue_ok(destination_queue.buckets@, t2, destination_tree.root_id()),
            0 <= top1 <= capacity1,
            0 <= top2 <= capacity2,
            empty_from(source_queue.buckets@, top1),
            empty_from(destination_queue.buckets@, top2),
            forall|j: int|
                0 <= j < ambiguous@.len() ==> #[trigger] ambiguous@[j].0 < n1 && ambiguous@[j].1
                    < n2 && in_subtree(parents(t1), source_tree.root_id(), ambiguous@[j].0 as int)
                    && in_subtree(parents(t2), destination_tree.root_id(), ambiguous@[j].1 as int),
            r == source_tree.root_id(),
            r == root1 as int,
            top == t1[r].height,
            capacity1 == top + 1,
            ident == (same_tree(t1, t2) && r == destination_tree.root_id() && untouched(t1, start, r)
                && t1[r].height > min_height),
            ident ==> links_itself(t1, *mapping, r) || (untouched(t1, *mapping, r) && source_queue.buckets@[top]@
                == seq![root1] && destination_queue.buckets@[top]@ == seq![root1] && capacity2 == capacity1),
            r2 == destination_tree.root_id(),
            mh == min_height as int,
            forall|x: int, y: int|
                #[trigger] unique_iso_pair(t1, t2, r, r2, mh, x, y) && !start.fwd().contains_key(x as usize)
                    && !start.bwd().contains_key(y as usize) ==> mapping.fwd().contains_key(x as usize)
                    || mapping.bwd().contains_key(y as usize) || ambiguous@.contains((x as usize, y as usize)) || (
                pending(source_queue.buckets@, t1, x) && pending(destination_queue.buckets@, t2, y)),
        ensures
            ident ==> links_itself(t1, *mapping, r),
            forall|x: int, y: int|
                #[trigger] unique_iso_pair(t1, t2, r, r2, mh, x, y) && !start.fwd().contains_key(x as usize)
                    && !start.bwd().contains_key(y as usize) ==> mapping.fwd().contains_key(x as usize)
                    || mapping.bwd().contains_key(y as usize) || ambiguous@.contains((x as usize, y as usize)),
        decreases top1 + top2,
    {
        proof {
            if ident && !links_itself(t1, *mapping, r) {
                assert(untouched(t1, *mapping, r));
                assert(source_queue.buckets@[top]@.len() > 0);
                assert(destination_queue.buckets@[top]@.len() > 0);
            }
        }
        let source_height = match source_queue.peek_height() {
            Some(h) => h,
            None => {
                proof {
                    assert forall|x: int, y: int|
                        #[trigger] unique_iso_pair(t1, t2, r, r2, mh, x, y) && !start.fwd().contains_key(x as usize)
                            && !start.bwd().contains_key(y as usize) implies mapping.fwd().contains_key(x as usize)
                            || mapping.bwd().contains_key(y as usize) || ambiguous@.contains((x as usize, y as usize)) by {
                        if pending(source_queue.buckets@, t1, x) {
                            lemma_pending_top(source_queue.buckets@, t1, r, x, -1);
                        }
                    }
                }
                break;
            },
        };
        let destination_height = match destination_queue.peek_height() {
            Some(h) => h,
            None => {
                proof {
                    assert forall|x: int, y: int|
                        #[trigger] unique_iso_pair(t1, t2, r, r2, mh, x, y) && !start.fwd().contains_key(x as usize)
                            && !start.bwd().contains_key(y as usize) implies mapping.fwd().contains_key(x as usize)
                            || mapping.bwd().contains_key(y as usize) || ambiguous@.contains((x as usize, y as usize)) by {
                        if pending(destination_queue.buckets@, t2, y) {
                            lemma_pending_top(destination_queue.buckets@, t2, r2, y, -1);
                        }
                    }
                }
                break;
            },
        };

        proof {
            if ident && !links_itself(t1, *mapping, r) {
                assert(source_queue.buckets@[top]@.len() > 0);
                assert(destination_queue.buckets@[top]@.len() > 0);
                assert(source_height == top);
                assert(destination_height == top);
            }
        }
        let max_height = if source_height >= destination_height {
            source_height
        } else {
            destination_height
        };
        if max_height <= min_height {
            proof {
                assert forall|x: int, y: int|
                    #[trigger] unique_iso_pair(t1, t2, r, r2, mh, x, y) && !start.fwd().contains_key(x as usize)
                        && !start.bwd().contains_key(y as usize) implies mapping.fwd().contains_key(x as usize)
                        || mapping.bwd().contains_key(y as usize) || ambiguous@.contains((x as usize, y as usize)) by {
                    if pending(source_queue.buckets@, t1, x) {
                        lemma_pending_top(source_queue.buckets@, t1, r, x, source_height as int);
                    }
                }
            }
            break;
        }

        proof {
            source_queue.lemma_peek_spec(source_height as int);
            destination_queue.lemma_peek_spec(destination_height as int);
        }
        if source_height > destination_height {
            let ghost ob = source_queue.buckets@;
            let nodes = source_queue.pop_max();
            let ghost mid = source_queue.buckets@;
            open_all(&mut source_queue, source_tree, &nodes, Ghost(source_height as int));
            proof {
                top1 = source_height as int;
                let hh = source_height as int;
                assert forall|g: int| 0 <= g < hh implies #[trigger] source_queue.buckets@[g]@ == ob[g]@
                    + children_at_height(t1, nodes@, g) by {
                    assert(mid[g]@ == ob[g]@);
                }
                assert forall|x: int, y: int|
                    #[trigger] unique_iso_pair(t1, t2, r, r2, mh, x, y) && !start.fwd().contains_key(x as usize)
                        && !start.bwd().contains_key(y as usize) implies mapping.fwd().contains_key(x as usize)
                        || mapping.bwd().contains_key(y as usize) || ambiguous@.contains((x as usize, y as usize)) || (
                    pending(source_queue.buckets@, t1, x) && pending(destination_queue.buckets@, t2, y)) by {
                    if !(mapping.fwd().contains_key(x as usize) || mapping.bwd().contains_key(y as usize)
                        || ambiguous@.contains((x as usize, y as usize))) {
                        assert(pending(ob, t1, x) && pending(destination_queue.buckets@, t2, y));
                        lemma_pending_top(destination_queue.buckets@, t2, r2, y, destination_height as int);
                        if ob[hh]@.contains(x as usize) {
                            let j = choose|j: int| 0 <= j < ob[hh]@.len() && ob[hh]@[j] == x as usize;
                            assert(t1[ob[hh]@[j] as int].height == hh);
                        }
                        assert forall|j: int|
                            0 <= j < ob[hh]@.len() && in_subtree(parents(t1), #[trigger] ob[hh]@[j] as int, x)
                                implies nodes@.contains(ob[hh]@[j]) by {
                            assert(nodes@[j] == ob[hh]@[j]);
                        }
                        lemma_pending_open(t1, r, ob, source_queue.buckets@, hh, nodes@, x);
                    }
                }
            }
        } else if destination_height > source_height {
            let ghost ob = destination_queue.buckets@;
            let nodes = destination_queue.pop_max();
            let ghost mid = destination_queue.buckets@;
            open_all(&mut destination_queue, destination_tree, &nodes, Ghost(destination_height as int));
            proof {
                top2 = destination_height as int;
                let hh = destination_height as int;
                assert forall|g: int| 0 <= g < hh implies #[trigger] destination_queue.buckets@[g]@ == ob[g]@
                    + children_at_height(t2, nodes@, g) by {
                    assert(mid[g]@ == ob[g]@);
                }
                assert forall|x: int, y: int|
                    #[trigger] unique_iso_pair(t1, t2, r, r2, mh, x, y) && !start.fwd().contains_key(x as usize)
                        && !start.bwd().contains_key(y as usize) implies mapping.fwd().contains_key(x as usize)
                        || mapping.bwd().contains_key(y as usize) || ambiguous@.contains((x as usize, y as usize)) || (
                    pending(source_queue.buckets@, t1, x) && pending(destination_queue.buckets@, t2, y)) by {
                    if !(mapping.fwd().contains_key(x as usize) || mapping.bwd().contains_key(y as usize)
                        || ambiguous@.contains((x as usize, y as usize))) {
                        assert(pending(ob, t2, y) && pending(source_queue.buckets@, t1, x));
                        lemma_pending_top(source_queue.buckets@, t1, r, x, source_height as int);
                        if ob[hh]@.contains(y as usize) {
                            let j = choose|j: int| 0 <= j < ob[hh]@.len() && ob[hh]@[j] == y as usize;
                            assert(t2[ob[hh]@[j] as int].height == hh);
                        }
                        assert forall|j: int|
                            0 <= j < ob[hh]@.len() && in_subtree(parents(t2), #[trigger] ob[hh]@[j] as int, y)
                                implies nodes@.contains(ob[hh]@[j]) by {
                            assert(nodes@[j] == ob[hh]@[j]);
                        }
                        lemma_pending_open(t2, r2, ob, destination_queue.buckets@, hh, nodes@, y);
                    }
                }
            }
        } else {
            let ghost source_buckets = source_queue.buckets@;
            let ghost destination_buckets = destination_queue.buckets@;
            let source_nodes = source_queue.pop_max();
            let destination_nodes = destination_queue.pop_max();
            let ghost before_level = *mapping;
            let ghost amb_before = ambiguous@;
            let ghost mid1 = source_queue.buckets@;
            let ghost mid2 = destination_queue.buckets@;
            proof {
                assert forall|j: int| 0 <= j < source_nodes@.len() implies t1[#[trigger] source_nodes@[j] as int].height
                    == source_height by {
                    assert(source_nodes@[j] == source_buckets[source_height as int]@[j]);
                }
                assert forall|j: int| 0 <= j < destination_nodes@.len() implies t2[#[trigger] destination_nodes@[j] as int].height
                    == destination_height by {
                    assert(destination_nodes@[j] == destination_buckets[destination_height as int]@[j]);
                }
            }
            let (matched_sources, matched_destinations) = match_at_height(
                source_tree,
                destination_tree,
                &source_nodes,
                &destination_nodes,
                mapping,
                &mut ambiguous,
                Ghost(source_height as int),
                Ghost(min_height as int),
            );
            proof {
                lemma_anchored_trans(t1, t2, min_height as int, start, before_level, *mapping);
                if ident {
                    if links_itself(t1, before_level, r) {
                        lemma_links_itself_kept(t1, r, before_level, *mapping);
                    } else {
                        assert(source_nodes@ == seq![root1]);
                        assert(destination_nodes@ == seq![root1]);
                        assert(source_nodes@[0] == root1);
                        assert(untouched(t1, before_level, source_nodes@[0] as int));
                    }
                    assert(links_itself(t1, *mapping, r));
                }
            }
            let mut unmatched_sources: Vec<NodeId> = Vec::new();
            let mut i: usize = 0;
            while i < source_nodes.len()
                invariant
                    matched_sources@.len() == source_nodes@.len(),
                    i <= source_nodes@.len(),
                    forall|j: int|
                        0 <= j < source_nodes@.len() ==> in_subtree(parents(t1), source_tree.root_id(), #[trigger] source_nodes@[j] as int)
                            && t1[source_nodes@[j] as int].height == source_height,
                    forall|j: int|
                        0 <= j < unmatched_sources@.len() ==> in_subtree(parents(t1), source_tree.root_id(), #[trigger] unmatched_sources@[j] as int)
                            && t1[unmatched_sources@[j] as int].height == source_height,
                    forall|j: int| 0 <= j < i && !#[trigger] matched_sources@[j] ==> unmatched_sources@.contains(source_nodes@[j]),
                decreases source_nodes@.len() - i,
            {
                if !matched_sources[i] {
                    let ghost before = unmatched_sources@;
                    unmatched_sources.push(source_nodes[i]);
                    proof {
                        assert forall|j: int| 0 <= j < i + 1 && !#[trigger] matched_sources@[j] implies unmatched_sources@.contains(source_nodes@[j]) by {
                            if j < i {
                                let q = choose|q: int| 0 <= q < before.len() && before[q] == source_nodes@[j];
                                assert(unmatched_sources@[q] == before[q]);
                            } else {
                                assert(unmatched_sources@[before.len() as int] == source_nodes@[j]);
                            }
                        }
                        assert forall|j: int| 0 <= j < unmatched_sources@.len() implies in_subtree(parents(t1), source_tree.root_id(), #[trigger] unmatched_sources@[j] as int)
                            && t1[unmatched_sources@[j] as int].height == source_height by {
                            if j < before.len() {
                                assert(unmatched_sources@[j] == before[j]);
                            } else {
                                assert(unmatched_sources@[j] == source_nodes@[i as int]);
                            }
                        }
                    }
                }
                i += 1;
            }
            let mut unmatched_destinations: Vec<NodeId> = Vec::new();
            let mut i: usize = 0;
            while i < destination_nodes.len()
                invariant
                    matched_destinations@.len() == destination_nodes@.len(),
                    i <= destination_nodes@.len(),
                    forall|j: int|
                        0 <= j < destination_nodes@.len() ==> in_subtree(parents(t2), destination_tree.root_id(), #[trigger] destination_nodes@[j] as int)
                            && t2[destination_nodes@[j] as int].height == destination_height,
                    forall|j: int|
                        0 <= j < unmatched_destinations@.len() ==> in_subtree(parents(t2), destination_tree.root_id(), #[trigger] unmatched_destinations@[j] as int)
                            && t2[unmatched_destinations@[j] as int].height == destination_height,
                    forall|j: int| 0 <= j < i && !#[trigger] matched_destinations@[j] ==> unmatched_destinations@.contains(destination_nodes@[j]),
                decreases destination_nodes@.len() - i,
            {
                if !matched_destinations[i] {
                    let ghost before = unmatched_destinations@;
                    unmatched_destinations.push(destination_nodes[i]);
                    proof {
                        assert forall|j: int| 0 <= j < i + 1 && !#[trigger] matched_destinations@[j] implies unmatched_destinations@.contains(destination_nodes@[j]) by {
                            if j < i {
                                let q = choose|q: int| 0 <= q < before.len() && before[q] == destination_nodes@[j];
                                assert(unmatched_destinations@[q] == before[q]);
                            } else {
                                assert(unmatched_destinations@[before.len() as int] == destination_nodes@[j]);
                            }
                        }
                        assert forall|j: int| 0 <= j < unmatched_destinations@.len() implies in_subtree(parents(t2), destination_tree.root_id(), #[trigger] unmatched_destinations@[j] as int)
                            && t2[unmatched_destinations@[j] as int].height == destination_height by {
                            if j < before.len() {
                                assert(unmatched_destinations@[j] == before[j]);
                            } else {
                                assert(unmatched_destinations@[j] == destination_nodes@[i as int]);
                            }
                        }
                    }
                }
                i += 1;
            }
            open_all(&mut source_queue, source_tree, &unmatched_sources, Ghost(source_height as int));
            open_all(
                &mut destination_queue,
                destination_tree,
                &unmatched_destinations,
                Ghost(destination_height as int),
            );
            proof {
                top1 = source_height as int;
                top2 = destination_height as int;
                let hh = source_height as int;
                assert forall|g: int| 0 <= g < hh implies #[trigger] source_queue.buckets@[g]@ == source_buckets[g]@
                    + children_at_height(t1, unmatched_sources@, g) by {
                    assert(mid1[g]@ == source_buckets[g]@);
                }
                assert forall|g: int| 0 <= g < hh implies #[trigger] destination_queue.buckets@[g]@
                    == destination_buckets[g]@ + children_at_height(t2, unmatched_destinations@, g) by {
                    assert(mid2[g]@ == destination_buckets[g]@);
                }
                assert forall|x: int, y: int|
                    #[trigger] unique_iso_pair(t1, t2, r, r2, mh, x, y) && !start.fwd().contains_key(x as usize)
                        && !start.bwd().contains_key(y as usize) implies mapping.fwd().contains_key(x as usize)
                        || mapping.bwd().contains_key(y as usize) || ambiguous@.contains((x as usize, y as usize)) || (
                    pending(source_queue.buckets@, t1, x) && pending(destination_queue.buckets@, t2, y)) by {
                    if !(mapping.fwd().contains_key(x as usize) || mapping.bwd().contains_key(y as usize)
                        || ambiguous@.contains((x as usize, y as usize))) {
                        if before_level.bwd().contains_key(y as usize) {
                            lemma_dst_taken_kept(before_level, *mapping, y as usize);
                        }
                        if amb_before.contains((x as usize, y as usize)) {
                            let j = choose|j: int| 0 <= j < amb_before.len() && amb_before[j] == (x as usize, y as usize);
                            assert(ambiguous@[j] == amb_before[j]);
                        }
                        assert(pending(source_buckets, t1, x) && pending(destination_buckets, t2, y));
                        lemma_in_subtree_ge(parents(t1), r, x);
                        lemma_in_subtree_ge(parents(t2), r2, y);
                        if source_buckets[hh]@.contains(x as usize) {
                            let i = choose|i: int| 0 <= i < source_buckets[hh]@.len() && source_buckets[hh]@[i] == x as usize;
                            assert(source_nodes@[i] == x as usize);
                            assert(t1[x].height == hh);
                            lemma_pending_at_top(destination_buckets, t2, r2, y, hh);
                            let j = choose|j: int| 0 <= j < destination_buckets[hh]@.len() && destination_buckets[hh]@[j] == y as usize;
                            assert(destination_nodes@[j] == y as usize);
                            assert(iso(t1, t2, source_nodes@[i] as int, destination_nodes@[j] as int));
                        } else if destination_buckets[hh]@.contains(y as usize) {
                            let j = choose|j: int| 0 <= j < destination_buckets[hh]@.len() && destination_buckets[hh]@[j] == y as usize;
                            assert(t2[destination_buckets[hh]@[j] as int].height == hh);
                            lemma_pending_at_top(source_buckets, t1, r, x, hh);
                        } else {
                            assert forall|j: int|
                                0 <= j < source_buckets[hh]@.len() && in_subtree(parents(t1), #[trigger] source_buckets[hh]@[j] as int, x)
                                    implies unmatched_sources@.contains(source_buckets[hh]@[j]) by {
                                assert(source_nodes@[j] == source_buckets[hh]@[j]);
                                if matched_sources@[j] {
                                    let k = choose|k: int|
                                        0 <= k < destination_nodes@.len() && iso(
                                            t1,
                                            t2,
                                            source_nodes@[j] as int,
                                            #[trigger] destination_nodes@[k] as int,
                                        );
                                    lemma_in_subtree_ge(parents(t2), r2, destination_nodes@[k] as int);
                                    lemma_in_subtree_ge(parents(t1), r, source_nodes@[j] as int);
                                    assert(source_nodes@[j] as int != x);
                                    assert(!iso(t1, t2, source_nodes@[j] as int, destination_nodes@[k] as int));
                                }
                            }
                            lemma_pending_open(t1, r, source_buckets, source_queue.buckets@, hh, unmatched_sources@, x);
                            assert forall|j: int|
                                0 <= j < destination_buckets[hh]@.len() && in_subtree(parents(t2), #[trigger] destination_buckets[hh]@[j] as int, y)
                                    implies unmatched_destinations@.contains(destination_buckets[hh]@[j]) by {
                                assert(destination_nodes@[j] == destination_buckets[hh]@[j]);
                                if matched_destinations@[j] {
                                    let k = choose|k: int|
                                        0 <= k < source_nodes@.len() && iso(
                                            t1,
                                            t2,
                                            #[trigger] source_nodes@[k] as int,
                                            destination_nodes@[j] as int,
                                        );
                                    lemma_in_subtree_ge(parents(t1), r, source_nodes@[k] as int);
                                    lemma_in_subtree_ge(parents(t2), r2, destination_nodes@[j] as int);
                                    assert(destination_nodes@[j] as int != y);
                                    assert(!iso(t1, t2, source_nodes@[k] as int, destination_nodes@[j] as int));
                                }
                            }
                            lemma_pending_open(
                                t2,
                                r2,
                                destination_buckets,
                                destination_queue.buckets@,
                                hh,
                                unmatched_destinations@,
                                y,
                            );
                        }
                    }
                }
            }
        }
    }

    // Resolve ambiguous candidates by parent-context dice, descending.
    let mut scored: Vec<(Ratio, NodeId, NodeId)> = Vec::new();
    let mut k: usize = 0;
    while k < ambiguous.len()
        invariant
            scored@.len() == k,
            forall|j: int| 0 <= j < k ==> (#[trigger] scored@[j]).1 == ambiguous@[j].0 && scored@[j].2 == ambiguous@[j].1,
            source_tree.wf(),
            destination_tree.wf(),
            t2[destination_tree.root_id()].parent is None,
            t1 == source_tree.arena(),
            t2 == destination_tree.arena(),
            n1 == t1.len(),
            n2 == t2.len(),
            n1 + n2 <= usize::MAX / 2,
            mapping.wf(),
            mapping.fits(n1, n2),
            k <= ambiguous@.len(),
            forall|j: int|
                0 <= j < ambiguous@.len() ==> #[trigger] ambiguous@[j].0 < n1 && ambiguous@[j].1
                    < n2 && in_subtree(parents(t1), source_tree.root_id(), ambiguous@[j].0 as int)
                    && in_subtree(parents(t2), destination_tree.root_id(), ambiguous@[j].1 as int),
            forall|j: int|
                0 <= j < ambiguous@.len() ==> anchor_ok(
                    t1,
                    t2,
                    min_height as int,
                    (#[trigger] ambiguous@[j]).0 as int,
                    ambiguous@[j].1 as int,
                ),
            forall|j: int|
                0 <= j < scored@.len() ==> #[trigger] scored@[j].1 < n1 && scored@[j].2 < n2
                    && scored@[j].0.wf() && anchor_ok(
                    t1,
                    t2,
                    min_height as int,
                    scored@[j].1 as int,
                    scored@[j].2 as int,
                ),
        decreases ambiguous@.len() - k,
    {
        let (source_node, destination_node) = ambiguous[k];
        proof {
            assert(anchor_ok(t1, t2, min_height as int, ambiguous@[k as int].0 as int, ambiguous@[k as int].1 as int));
        }
        let score = parent_dice(source_tree, destination_tree, source_node, destination_node, mapping);
        let ghost before = scored@;
        scored.push((score, source_node, destination_node));
        proof {
            assert forall|j: int| 0 <= j < scored@.len() implies #[trigger] scored@[j].1 < n1
                && scored@[j].2 < n2 && scored@[j].0.wf() && anchor_ok(
                t1,
                t2,
                min_height as int,
                scored@[j].1 as int,
                scored@[j].2 as int,
            ) by {
                if j < before.len() {
                    assert(scored@[j] == before[j]);
                }
            }
            assert forall|j: int| 0 <= j < k + 1 implies (#[trigger] scored@[j]).1 == ambiguous@[j].0
                && scored@[j].2 == ambiguous@[j].1 by {
                if j < before.len() {
                    assert(scored@[j] == before[j]);
                }
            }
        }
        k += 1;
    }
    let ghost pre = scored@;
    let ghost resolving = *mapping;
    let ghost pair_ok = |s: usize, d: usize| anchor_ok(t1, t2, min_height as int, s as int, d as int);
    assert forall|j: int| 0 <= j < scored@.len() implies (#[trigger] scored@[j]).0.wf() && scored@[j].1 < n1
        && scored@[j].2 < n2 && pair_ok(scored@[j].1, scored@[j].2) by {
        assert(scored@[j].1 < n1);
    }
    let scored = sort_by_score_descending(scored, Ghost(n1), Ghost(n2), Ghost(pair_ok));

    let mut k: usize = 0;
    while k < scored.len()
        invariant
            source_tree.wf(),
            destination_tree.wf(),
            t1 == source_tree.arena(),
            t2 == destination_tree.arena(),
            n1 == t1.len(),
            n2 == t2.len(),
            mapping.wf(),
            mapping.fits(n1, n2),
            keeps_links(start, *mapping),
            anchored(t1, t2, min_height as int, start, *mapping),
            n1 + n2 <= usize::MAX / 2,
            k <= scored@.len(),
            forall|j: int|
                0 <= j < scored@.len() ==> #[trigger] scored@[j].1 < n1 && scored@[j].2 < n2 && pair_ok(
                    scored@[j].1,
                    scored@[j].2,
                ),
            pair_ok == (|s: usize, d: usize| anchor_ok(t1, t2, min_height as int, s as int, d as int)),
            ident ==> links_itself(t1, *mapping, r),
            resolving.wf(),
            keeps_links(resolving, *mapping),
            forall|q: int|
                0 <= q < k ==> mapping.fwd().contains_key((#[trigger] scored@[q]).1) || mapping.bwd().contains_key(
                    scored@[q].2,
                ),
        decreases scored@.len() - k,
    {
        let (_, source_node, destination_node) = scored[k];
        proof {
            assert(pair_ok(scored@[k as int].1, scored@[k as int].2));
        }
        if !mapping.has_src(source_node) && !mapping.has_dst(destination_node) {
            let ghost before = *mapping;
            map_isomorphic_subtree(
                source_tree,
                source_node,
                destination_tree,
                destination_node,
                mapping,
            );
            proof {
                super::lemma_keeps_links_trans(start, before, *mapping);
                super::lemma_keeps_links_trans(resolving, before, *mapping);
                lemma_anchor_step(t1, t2, min_height as int, before, *mapping, source_node as int, destination_node as int);
                lemma_anchored_trans(t1, t2, min_height as int, start, before, *mapping);
                if ident {
                    lemma_links_itself_kept(t1, r, before, *mapping);
                }
                assert forall|q: int|
                    0 <= q < k + 1 implies mapping.fwd().contains_key((#[trigger] scored@[q]).1)
                        || mapping.bwd().contains_key(scored@[q].2) by {
                    if q < k {
                        if before.bwd().contains_key(scored@[q].2) {
                            lemma_dst_taken_kept(before, *mapping, scored@[q].2);
                        }
                    }
                }
            }
        }
        k += 1;
    }
    proof {
        assert forall|x: int, y: int|
            #[trigger] unique_iso_pair(t1, t2, r, r2, mh, x, y) && !start.fwd().contains_key(x as usize)
                && !start.bwd().contains_key(y as usize) implies mapping.fwd().contains_key(x as usize)
                && mapping.fwd()[x as usize] == y as usize by {
            if resolving.bwd().contains_key(y as usize) {
                lemma_dst_taken_kept(resolving, *mapping, y as usize);
            }
            if !resolving.fwd().contains_key(x as usize) && !resolving.bwd().contains_key(y as usize) {
                assert(ambiguous@.contains((x as usize, y as usize)));
                let j = choose|j: int| 0 <= j < ambiguous@.len() && ambiguous@[j] == (x as usize, y as usize);
                assert(pre[j].1 == x as usize && pre[j].2 == y as usize);
                assert(scored@.contains(pre[j]));
                let q = choose|q: int| 0 <= q < scored@.len() && scored@[q] == pre[j];
                assert(mapping.fwd().contains_key(scored@[q].1) || mapping.bwd().contains_key(scored@[q].2));
            }
            lemma_unique_linked(t1, t2, r, r2, mh, start, *mapping, x, y);
        }
    }
}

/// Opens every node of `nodes`, all taken from the bucket of height `h`.
fn open_all(queue: &mut HeightPQ, tree: &Tree, nodes: &Vec<NodeId>, Ghost(h): Ghost<int>)
    requires
        tree.wf(),
        queue_ok(old(queue).buckets@, tree.arena(), tree.root_id()),
        0 <= h < old(queue).buckets@.len(),
        empty_from(old(queue).buckets@, h),
        forall|j: int|
            0 <= j < nodes@.len() ==> in_subtree(parents(tree.arena()), tree.root_id(), #[trigger] nodes@[j] as int)
                && tree.arena()[nodes@[j] as int].height == h,
    ensures
        final(queue).buckets@.len() == old(queue).buckets@.len(),
        queue_ok(final(queue).buckets@, tree.arena(), tree.root_id()),
        empty_from(final(queue).buckets@, h),
        forall|g: int|
            0 <= g < h ==> #[trigger] final(queue).buckets@[g]@ == old(queue).buckets@[g]@ + children_at_height(
                tree.arena(),
                nodes@,
                g,
            ),
{
    let mut i: usize = 0;
    proof {
        assert(nodes@.take(0) =~= Seq::<usize>::empty());
        assert forall|g: int| 0 <= g < h implies #[trigger] queue.buckets@[g]@ == old(queue).buckets@[g]@
            + children_at_height(tree.arena(), nodes@.take(0), g) by {
            assert(old(queue).buckets@[g]@ + Seq::<usize>::empty() =~= old(queue).buckets@[g]@);
        }
    }
    while i < nodes.len()
        invariant
            tree.wf(),
            0 <= h < old(queue).buckets@.len(),
            queue.buckets@.len() == old(queue).buckets@.len(),
            queue_ok(queue.buckets@, tree.arena(), tree.root_id()),
            empty_from(queue.buckets@, h),
            forall|j: int|
                0 <= j < nodes@.len() ==> in_subtree(parents(tree.arena()), tree.root_id(), #[trigger] nodes@[j] as int)
                    && tree.arena()[nodes@[j] as int].height == h,
            i <= nodes@.len(),
            forall|g: int|
                0 <= g < h ==> #[trigger] queue.buckets@[g]@ == old(queue).buckets@[g]@ + children_at_height(
                    tree.arena(),
                    nodes@.take(i as int),
                    g,
                ),
        decreases nodes@.len() - i,
    {
        let node = nodes[i];
        let ghost before = queue.buckets@;
        queue.open(tree, node);
        assert forall|g: int| h <= g < queue.buckets@.len() implies #[trigger] queue.buckets@[g]@.len() == 0 by {
            assert(queue.buckets@[g]@ == before[g]@);
        }
        proof {
            let t = tree.arena();
            assert(nodes@.take(i + 1).drop_last() =~= nodes@.take(i as int));
            assert(nodes@.take(i + 1).last() == node);
            assert forall|g: int| 0 <= g < h implies #[trigger] queue.buckets@[g]@ == old(queue).buckets@[g]@
                + children_at_height(t, nodes@.take(i + 1), g) by {
                let a = old(queue).buckets@[g]@;
                let b = children_at_height(t, nodes@.take(i as int), g);
                let c = at_height(t, t[node as int].children@, g);
                assert(before[g]@ == a + b);
                assert(children_at_height(t, nodes@.take(i + 1), g) == b + c);
                assert((a + b) + c =~= a + (b + c));
            }
        }
        i += 1;
    }
    proof {
        assert(nodes@.take(nodes@.len() as int) =~= nodes@);
    }
}

/// Attempts to match isomorphic nodes at the same height level.
/// Unique matches are linked immediately; ambiguous ones are deferred.
/// Returns, for each given source and destination node, whether it took part
/// in some isomorphic pair, so the caller knows which nodes NOT to open.
fn match_at_height(
    source_tree: &Tree,
    destination_tree: &Tree,
    source_nodes: &Vec<NodeId>,
    destination_nodes: &Vec<NodeId>,
    mapping: &mut Mapping,
    ambiguous: &mut Vec<(NodeId, NodeId)>,
    Ghost(height): Ghost<int>,
    Ghost(min_height): Ghost<int>,
) -> (r: (Vec<bool>, Vec<bool>))
    requires
        source_tree.wf(),
        destination_tree.wf(),
        old(mapping).wf(),
        old(mapping).fits(source_tree.arena().len(), destination_tree.arena().len()),
        height > min_height,
        source_tree.arena().len() <= usize::MAX,
        forall|j: int|
            0 <= j < source_nodes@.len() ==> source_tree.arena()[#[trigger] source_nodes@[j] as int].height
                == height,
        forall|j: int|
            0 <= j < destination_nodes@.len() ==> destination_tree.arena()[#[trigger] destination_nodes@[
                j
            ] as int].height == height,
        forall|j: int|
            0 <= j < old(ambiguous)@.len() ==> anchor_ok(
                source_tree.arena(),
                destination_tree.arena(),
                min_height,
                (#[trigger] old(ambiguous)@[j]).0 as int,
                old(ambiguous)@[j].1 as int,
            ),
        forall|j: int|
            0 <= j < source_nodes@.len() ==> in_subtree(
                parents(source_tree.arena()),
                source_tree.root_id(),
                #[trigger] source_nodes@[j] as int,
            ),
        forall|j: int|
            0 <= j < destination_nodes@.len() ==> in_subtree(
                parents(destination_tree.arena()),
                destination_tree.root_id(),
                #[trigger] destination_nodes@[j] as int,
            ),
        forall|j: int|
            0 <= j < old(ambiguous)@.len() ==> #[trigger] old(ambiguous)@[j].0
                < source_tree.arena().len() && old(ambiguous)@[j].1 < destination_tree.arena().len()
                && in_subtree(parents(source_tree.arena()), source_tree.root_id(), old(ambiguous)@[j].0 as int)
                && in_subtree(
                parents(destination_tree.arena()),
                destination_tree.root_id(),
                old(ambiguous)@[j].1 as int,
            ),
    ensures
        final(mapping).wf(),
        final(mapping).fits(source_tree.arena().len(), destination_tree.arena().len()),
        keeps_links(*old(mapping), *final(mapping)),
        anchored(source_tree.arena(), destination_tree.arena(), min_height, *old(mapping), *final(mapping)),
        forall|j: int|
            0 <= j < final(ambiguous)@.len() ==> anchor_ok(
                source_tree.arena(),
                destination_tree.arena(),
                min_height,
                (#[trigger] final(ambiguous)@[j]).0 as int,
                final(ambiguous)@[j].1 as int,
            ),
        r.0@.len() == source_nodes@.len(),
        r.1@.len() == destination_nodes@.len(),
        forall|j: int|
            0 <= j < final(ambiguous)@.len() ==> #[trigger] final(ambiguous)@[j].0
                < source_tree.arena().len() && final(ambiguous)@[j].1 < destination_tree.arena().len()
                && in_subtree(parents(source_tree.arena()), source_tree.root_id(), final(ambiguous)@[j].0 as int)
                && in_subtree(
                parents(destination_tree.arena()),
                destination_tree.root_id(),
                final(ambiguous)@[j].1 as int,
            ),
        source_nodes@.len() == 1 && destination_nodes@ == source_nodes@ && same_tree(
            source_tree.arena(),
            destination_tree.arena(),
        ) && source_tree.root_id() == destination_tree.root_id() && untouched(
            source_tree.arena(),
            *old(mapping),
            source_nodes@[0] as int,
        ) ==> links_itself(source_tree.arena(), *final(mapping), source_nodes@[0] as int),
        forall|i: int|
            0 <= i < source_nodes@.len() && #[trigger] r.0@[i] ==> exists|j: int|
                0 <= j < destination_nodes@.len() && iso(
                    source_tree.arena(),
                    destination_tree.arena(),
                    source_nodes@[i] as int,
                    #[trigger] destination_nodes@[j] as int,
                ),
        forall|j: int|
            0 <= j < destination_nodes@.len() && #[trigger] r.1@[j] ==> exists|i: int|
                0 <= i < source_nodes@.len() && iso(
                    source_tree.arena(),
                    destination_tree.arena(),
                    #[trigger] source_nodes@[i] as int,
                    destination_nodes@[j] as int,
                ),
        forall|i: int, j: int|
            0 <= i < source_nodes@.len() && 0 <= j < destination_nodes@.len() && iso(
                source_tree.arena(),
                destination_tree.arena(),
                #[trigger] source_nodes@[i] as int,
                #[trigger] destination_nodes@[j] as int,
            ) ==> final(mapping).fwd().contains_key(source_nodes@[i]) || final(mapping).bwd().contains_key(
                destination_nodes@[j],
            ) || final(ambiguous)@.contains((source_nodes@[i], destination_nodes@[j])),
        final(ambiguous)@.len() >= old(ambiguous)@.len(),
        forall|j: int| 0 <= j < old(ambiguous)@.len() ==> #[trigger] final(ambiguous)@[j] == old(ambiguous)@[j],
{
    let ghost t1 = source_tree.arena();
    let ghost t2 = destination_tree.arena();
    let ghost par1 = parents(t1);
    let ghost par2 = parents(t2);
    let ghost root1 = source_tree.root_id();
    let ghost root2 = destination_tree.root_id();
    let ghost start = *mapping;
    let ghost single = source_nodes@.len() == 1 && destination_nodes@ == source_nodes@ && same_tree(t1, t2)
        && root1 == root2 && untouched(t1, start, source_nodes@[0] as int);
    proof {
        if single {
            crate::tree::lemma_same_tree_metadata(t1, t2, root1);
        }
    }
    let source_count_total = source_nodes.len();
    let destination_count_total = destination_nodes.len();

    // Collect isomorphic pairs (same structural hash and kind), as indices
    // into the two node lists, source-major.
    let mut iso_pairs: Vec<(usize, usize)> = Vec::new();
    let mut source_count: Vec<usize> = Vec::with_capacity(source_count_total);
    let mut destination_count: Vec<usize> = Vec::with_capacity(destination_count_total);
    let mut fill: usize = 0;
    while fill < destination_count_total
        invariant
            fill <= destination_count_total,
            destination_count@.len() == fill,
            forall|q: int| 0 <= q < fill ==> #[trigger] destination_count@[q] == 0,
        decreases destination_count_total - fill,
    {
        destination_count.push(0);
        fill += 1;
    }
    let mut i: usize = 0;
    while i < source_count_total
        invariant
            source_tree.wf(),
            destination_tree.wf(),
            t1 == source_tree.arena(),
            t2 == destination_tree.arena(),
            source_count_total == source_nodes@.len(),
            destination_count_total == destination_nodes@.len(),
            forall|j: int| 0 <= j < source_nodes@.len() ==> in_subtree(par1, root1, #[trigger] source_nodes@[j] as int),
            forall|j: int|
                0 <= j < destination_nodes@.len() ==> in_subtree(par2, root2, #[trigger] destination_nodes@[j] as int),
            par1 == parents(t1),
            par2 == parents(t2),
            root1 == source_tree.root_id(),
            root2 == destination_tree.root_id(),
            i <= source_count_total,
            source_count@.len() == i,
            destination_count@.len() == destination_count_total,
            forall|q: int| 0 <= q < i ==> #[trigger] source_count@[q] <= destination_count_total,
            forall|q: int| 0 <= q < destination_count_total ==> #[trigger] destination_count@[q] <= i,
            iso_pairs@.len() <= i * destination_count_total,
            forall|q: int|
                0 <= q < iso_pairs@.len() ==> #[trigger] iso_pairs@[q].0 < i && iso_pairs@[q].1
                    < destination_count_total,
            iso_ok(t1, t2, source_nodes@, destination_nodes@, iso_pairs@),
            single == (source_nodes@.len() == 1 && destination_nodes@ == source_nodes@ && same_tree(t1, t2)
                && root1 == root2 && untouched(t1, start, source_nodes@[0] as int)),
            single && i == 0 ==> iso_pairs@.len() == 0 && destination_count@ == seq![0usize],
            single && i == 1 ==> iso_pairs@ == seq![(0usize, 0usize)] && source_count@ == seq![1usize]
                && destination_count@ == seq![1usize],
            forall|q: int|
                0 <= q < i && #[trigger] source_count@[q] > 0 ==> exists|j2: int|
                    0 <= j2 < destination_count_total && iso(t1, t2, source_nodes@[q] as int, #[trigger] destination_nodes@[j2] as int),
            forall|q: int|
                0 <= q < destination_count_total && #[trigger] destination_count@[q] > 0 ==> exists|i2: int|
                    0 <= i2 < i && iso(t1, t2, #[trigger] source_nodes@[i2] as int, destination_nodes@[q] as int),
            forall|q: int, j2: int|
                0 <= q < i && 0 <= j2 < destination_count_total && iso(
                    t1,
                    t2,
                    #[trigger] source_nodes@[q] as int,
                    #[trigger] destination_nodes@[j2] as int,
                ) ==> iso_pairs@.contains((q as usize, j2 as usize)),
        decreases source_count_total - i,
    {
        let source_id = source_nodes[i];
        proof {
            lemma_in_subtree_ge(par1, root1, source_id as int);
        }
        let source = source_tree.node(source_id);
        let mut matches: usize = 0;
        let mut j: usize = 0;
        while j < destination_count_total
            invariant
                source_tree.wf(),
                destination_tree.wf(),
                t2 == destination_tree.arena(),
                destination_count_total == destination_nodes@.len(),
                forall|q: int|
                    0 <= q < destination_nodes@.len() ==> in_subtree(par2, root2, #[trigger] destination_nodes@[q] as int),
                par2 == parents(t2),
                root2 == destination_tree.root_id(),
                root1 == source_tree.root_id(),
                i < source_count_total,
                j <= destination_count_total,
                matches <= j,
                destination_count@.len() == destination_count_total,
                forall|q: int| 0 <= q < j ==> #[trigger] destination_count@[q] <= i + 1,
                forall|q: int| j <= q < destination_count_total ==> #[trigger] destination_count@[q] <= i,
                iso_pairs@.len() <= i * destination_count_total + matches,
                forall|q: int|
                    0 <= q < iso_pairs@.len() ==> #[trigger] iso_pairs@[q].0 < i + 1 && iso_pairs@[q].1
                        < destination_count_total,
                iso_ok(t1, t2, source_nodes@, destination_nodes@, iso_pairs@),
                t1 == source_tree.arena(),
                source_id == source_nodes@[i as int],
                *source == t1[source_id as int],
                source_count_total == source_nodes@.len(),
                single ==> i == 0 && destination_nodes@ == source_nodes@ && same_tree(t1, t2) && root1 == root2
                    && source_nodes@.len() == 1,
                single && j == 0 ==> matches == 0 && iso_pairs@.len() == 0 && destination_count@ == seq![0usize],
                single && j == 1 ==> matches == 1 && iso_pairs@ == seq![(0usize, 0usize)] && destination_count@
                    == seq![1usize],
                matches > 0 ==> exists|j2: int|
                    0 <= j2 < j && iso(t1, t2, source_nodes@[i as int] as int, #[trigger] destination_nodes@[j2] as int),
                forall|q: int|
                    0 <= q < destination_count_total && #[trigger] destination_count@[q] > 0 ==> exists|i2: int|
                        0 <= i2 < i + 1 && iso(t1, t2, #[trigger] source_nodes@[i2] as int, destination_nodes@[q] as int),
                forall|q: int, j2: int|
                    0 <= q < i && 0 <= j2 < destination_count_total && iso(
                        t1,
                        t2,
                        #[trigger] source_nodes@[q] as int,
                        #[trigger] destination_nodes@[j2] as int,
                    ) ==> iso_pairs@.contains((q as usize, j2 as usize)),
                forall|j2: int|
                    0 <= j2 < j && iso(t1, t2, source_nodes@[i as int] as int, #[trigger] destination_nodes@[j2] as int)
                        ==> iso_pairs@.contains((i, j2 as usize)),
            decreases destination_count_total - j,
        {
            let destination_id = destination_nodes[j];
            proof {
                lemma_in_subtree_ge(par2, root2, destination_id as int);
            }
            let destination = destination_tree.node(destination_id);
            proof {
                if single {
                    assert(crate::tree::arena_wf(t1, root1));
                    assert(crate::tree::arena_wf(t2, root2));
                    crate::tree::lemma_same_tree_metadata(t1, t2, root1);
                    assert(destination_id == source_id);
                    assert(destination.kind@ == source.kind@);
                    assert(destination.hash == source.hash);
                }
            }
            if source.hash == destination.hash && source.kind == destination.kind {
                let ghost before = iso_pairs@;
                iso_pairs.push((i, j));
                proof {
                    assert forall|q: int| 0 <= q < iso_pairs@.len() implies #[trigger] iso_pairs@[q].0
                        < i + 1 && iso_pairs@[q].1 < destination_count_total by {
                        if q < before.len() {
                            assert(iso_pairs@[q] == before[q]);
                        }
                    }
                    assert forall|q: int| 0 <= q < iso_pairs@.len() implies {
                        let x = source_nodes@[(#[trigger] iso_pairs@[q]).0 as int] as int;
                        let y = destination_nodes@[iso_pairs@[q].1 as int] as int;
                        t1[x].hash == t2[y].hash && t1[x].kind@ == t2[y].kind@
                    } by {
                        if q < before.len() {
                            assert(iso_pairs@[q] == before[q]);
                        } else {
                            assert(iso_pairs@[q] == (i, j));
                        }
                    }
                }
                proof {
                    assert(iso(t1, t2, source_nodes@[i as int] as int, destination_nodes@[j as int] as int));
                    assert(iso_pairs@[iso_pairs@.len() - 1] == (i, j));
                    assert forall|q: int, j2: int|
                        0 <= q < i && 0 <= j2 < destination_count_total && iso(
                            t1,
                            t2,
                            #[trigger] source_nodes@[q] as int,
                            #[trigger] destination_nodes@[j2] as int,
                        ) implies iso_pairs@.contains((q as usize, j2 as usize)) by {
                        let w = choose|w: int| 0 <= w < before.len() && before[w] == (q as usize, j2 as usize);
                        assert(iso_pairs@[w] == before[w]);
                    }
                    assert forall|j2: int|
                        0 <= j2 < j + 1 && iso(t1, t2, source_nodes@[i as int] as int, #[trigger] destination_nodes@[j2] as int)
                            implies iso_pairs@.contains((i, j2 as usize)) by {
                        if j2 < j {
                            let w = choose|w: int| 0 <= w < before.len() && before[w] == (i, j2 as usize);
                            assert(iso_pairs@[w] == before[w]);
                        }
                    }
                }
                let ghost dc_before = destination_count@;
                matches += 1;
                let bumped = destination_count[j] + 1;
                destination_count.set(j, bumped);
                proof {
                    assert forall|q: int|
                        0 <= q < destination_count_total && #[trigger] destination_count@[q] > 0 implies exists|i2: int|
                            0 <= i2 < i + 1 && iso(t1, t2, #[trigger] source_nodes@[i2] as int, destination_nodes@[q] as int) by {
                        if q == j {
                            assert(iso(t1, t2, source_nodes@[i as int] as int, destination_nodes@[q] as int));
                        } else {
                            assert(dc_before[q] > 0);
                        }
                    }
                    if single {
                        assert(iso_pairs@ =~= seq![(0usize, 0usize)]);
                        assert(destination_count@ =~= seq![1usize]);
                    }
                }
            }
            j += 1;
        }
        let ghost sc_before = source_count@;
        source_count.push(matches);
        proof {
            if single {
                assert(source_count@ =~= seq![1usize]);
            }
            assert forall|q: int|
                0 <= q < i + 1 && #[trigger] source_count@[q] > 0 implies exists|j2: int|
                    0 <= j2 < destination_count_total && iso(t1, t2, source_nodes@[q] as int, #[trigger] destination_nodes@[j2] as int) by {
                if q < i {
                    assert(sc_before[q] > 0);
                }
            }
        }
        proof {
            assert(iso_pairs@.len() <= (i + 1) * destination_count_total) by (nonlinear_arith)
                requires
                    iso_pairs@.len() <= i * destination_count_total + matches,
                    matches <= destination_count_total,
            ;
        }
        i += 1;
    }

    let mut matched_sources: Vec<bool> = Vec::with_capacity(source_count_total);
    let mut i: usize = 0;
    while i < source_count_total
        invariant
            i <= source_count_total,
            source_count@.len() == source_count_total,
            matched_sources@.len() == i,
            forall|q: int| 0 <= q < i ==> #[trigger] matched_sources@[q] == (source_count@[q] > 0),
        decreases source_count_total - i,
    {
        matched_sources.push(source_count[i] > 0);
        proof {
            assert(matched_sources@[i as int] == (source_count@[i as int] > 0));
        }
        i += 1;
    }
    let mut matched_destinations: Vec<bool> = Vec::with_capacity(destination_count_total);
    let mut i: usize = 0;
    while i < destination_count_total
        invariant
            i <= destination_count_total,
            destination_count@.len() == destination_count_total,
            matched_destinations@.len() == i,
            forall|q: int| 0 <= q < i ==> #[trigger] matched_destinations@[q] == (destination_count@[q] > 0),
        decreases destination_count_total - i,
    {
        matched_destinations.push(destination_count[i] > 0);
        i += 1;
    }

    let mut k: usize = 0;
    while k < iso_pairs.len()
        invariant
            source_tree.wf(),
            destination_tree.wf(),
            t1 == source_tree.arena(),
            t2 == destination_tree.arena(),
            par1 == parents(t1),
            par2 == parents(t2),
            root1 == source_tree.root_id(),
            root2 == destination_tree.root_id(),
            source_count_total == source_nodes@.len(),
            destination_count_total == destination_nodes@.len(),
            forall|j: int| 0 <= j < source_nodes@.len() ==> in_subtree(par1, root1, #[trigger] source_nodes@[j] as int),
            forall|j: int|
                0 <= j < destination_nodes@.len() ==> in_subtree(par2, root2, #[trigger] destination_nodes@[j] as int),
            source_count@.len() == source_count_total,
            destination_count@.len() == destination_count_total,
            forall|q: int|
                0 <= q < iso_pairs@.len() ==> #[trigger] iso_pairs@[q].0 < source_count_total
                    && iso_pairs@[q].1 < destination_count_total,
            mapping.wf(),
            mapping.fits(t1.len(), t2.len()),
            keeps_links(start, *mapping),
            anchored(t1, t2, min_height, start, *mapping),
            iso_ok(t1, t2, source_nodes@, destination_nodes@, iso_pairs@),
            height > min_height,
            t1.len() <= usize::MAX,
            single == (source_nodes@.len() == 1 && destination_nodes@ == source_nodes@ && same_tree(t1, t2)
                && root1 == root2 && untouched(t1, start, source_nodes@[0] as int)),
            single ==> iso_pairs@ == seq![(0usize, 0usize)] && source_count@ == seq![1usize]
                && destination_count@ == seq![1usize],
            single && k == 0 ==> *mapping == start,
            single && k >= 1 ==> links_itself(t1, *mapping, source_nodes@[0] as int),
            forall|j: int| 0 <= j < source_nodes@.len() ==> t1[#[trigger] source_nodes@[j] as int].height == height,
            forall|j: int|
                0 <= j < destination_nodes@.len() ==> t2[#[trigger] destination_nodes@[j] as int].height == height,
            forall|j: int|
                0 <= j < ambiguous@.len() ==> anchor_ok(
                    t1,
                    t2,
                    min_height,
                    (#[trigger] ambiguous@[j]).0 as int,
                    ambiguous@[j].1 as int,
                ),
            k <= iso_pairs@.len(),
            forall|j: int|
                0 <= j < ambiguous@.len() ==> #[trigger] ambiguous@[j].0 < t1.len() && ambiguous@[j].1
                    < t2.len() && in_subtree(par1, root1, ambiguous@[j].0 as int) && in_subtree(
                    par2,
                    root2,
                    ambiguous@[j].1 as int,
                ),
            ambiguous@.len() >= old(ambiguous)@.len(),
            forall|j: int| 0 <= j < old(ambiguous)@.len() ==> #[trigger] ambiguous@[j] == old(ambiguous)@[j],
            forall|k2: int|
                0 <= k2 < k ==> {
                    let p = #[trigger] iso_pairs@[k2];
                    mapping.fwd().contains_key(source_nodes@[p.0 as int]) || mapping.bwd().contains_key(
                        destination_nodes@[p.1 as int],
                    ) || ambiguous@.contains((source_nodes@[p.0 as int], destination_nodes@[p.1 as int]))
                },
        decreases iso_pairs@.len() - k,
    {
        let (source_index, destination_index) = iso_pairs[k];
        let source_node = source_nodes[source_index];
        let destination_node = destination_nodes[destination_index];
        proof {
            lemma_in_subtree_ge(par1, root1, source_node as int);
            lemma_in_subtree_ge(par2, root2, destination_node as int);
        }
        proof {
            assert(iso_pairs@[k as int] == (source_index, destination_index));
            assert(anchor_ok(t1, t2, min_height, source_node as int, destination_node as int));
        }
        proof {
            if single {
                assert(k == 0);
                assert(source_node == destination_node);
                assert(in_subtree(par1, source_node as int, source_node as int));
            }
        }
        let is_unique = source_count[source_index] == 1 && destination_count[destination_index] == 1;
        let ghost amb0 = ambiguous@;
        let ghost map0 = *mapping;
        if !is_unique {
            let ghost before = ambiguous@;
            ambiguous.push((source_node, destination_node));
            proof {
                assert(ambiguous@[ambiguous@.len() - 1] == (source_node, destination_node));
                assert forall|j: int| 0 <= j < ambiguous@.len() implies anchor_ok(
                    t1,
                    t2,
                    min_height,
                    (#[trigger] ambiguous@[j]).0 as int,
                    ambiguous@[j].1 as int,
                ) by {
                    if j < before.len() {
                        assert(ambiguous@[j] == before[j]);
                    }
                }
                assert forall|j: int| 0 <= j < ambiguous@.len() implies #[trigger] ambiguous@[j].0
                    < t1.len() && ambiguous@[j].1 < t2.len() && in_subtree(par1, root1, ambiguous@[j].0 as int)
                    && in_subtree(par2, root2, ambiguous@[j].1 as int) by {
                    if j == ambiguous@.len() - 1 {
                        assert(ambiguous@[j] == (source_node, destination_node));
                    } else {
                        assert(ambiguous@[j] == before[j]);
                        assert(before[j].0 < t1.len() && before[j].1 < t2.len() && in_subtree(
                            par1,
                            root1,
                            before[j].0 as int,
                        ) && in_subtree(par2, root2, before[j].1 as int));
                    }
                }
            }
        } else if !mapping.has_src(source_node) && !mapping.has_dst(destination_node) {
            let ghost before = *mapping;
            map_isomorphic_subtree(
                source_tree,
                source_node,
                destination_tree,
                destination_node,
                mapping,
            );
            proof {
                super::lemma_keeps_links_trans(start, before, *mapping);
                lemma_anchor_step(t1, t2, min_height, before, *mapping, source_node as int, destination_node as int);
                lemma_anchored_trans(t1, t2, min_height, start, before, *mapping);
            }
        }
        proof {
            assert forall|k2: int| 0 <= k2 < k + 1 implies {
                let p = #[trigger] iso_pairs@[k2];
                mapping.fwd().contains_key(source_nodes@[p.0 as int]) || mapping.bwd().contains_key(
                    destination_nodes@[p.1 as int],
                ) || ambiguous@.contains((source_nodes@[p.0 as int], destination_nodes@[p.1 as int]))
            } by {
                let p = iso_pairs@[k2];
                let sx = source_nodes@[p.0 as int];
                let dx = destination_nodes@[p.1 as int];
                if k2 < k {
                    if map0.fwd().contains_key(sx) {
                        assert(mapping.fwd().contains_key(sx));
                    } else if map0.bwd().contains_key(dx) {
                        lemma_dst_taken_kept(map0, *mapping, dx);
                    } else {
                        assert(amb0.contains((sx, dx)));
                        let w = choose|w: int| 0 <= w < amb0.len() && amb0[w] == (sx, dx);
                        assert(ambiguous@[w] == amb0[w]);
                    }
                } else {
                    assert(p == (source_index, destination_index));
                    if !is_unique {
                    } else if map0.bwd().contains_key(dx) {
                        lemma_dst_taken_kept(map0, *mapping, dx);
                    }
                }
            }
        }
        k += 1;
    }
    proof {
        assert forall|i: int, j: int|
            0 <= i < source_nodes@.len() && 0 <= j < destination_nodes@.len() && iso(
                t1,
                t2,
                #[trigger] source_nodes@[i] as int,
                #[trigger] destination_nodes@[j] as int,
            ) implies mapping.fwd().contains_key(source_nodes@[i]) || mapping.bwd().contains_key(destination_nodes@[j])
            || ambiguous@.contains((source_nodes@[i], destination_nodes@[j])) by {
            assert(iso_pairs@.contains((i as usize, j as usize)));
            let w = choose|w: int| 0 <= w < iso_pairs@.len() && iso_pairs@[w] == (i as usize, j as usize);
            assert(iso_pairs@[w] == (i as usize, j as usize));
        }
    }

    (matched_sources, matched_destinations)
}

/// `a` and `b` may be matched as isomorphic: same structural hash and kind.
pub open spec fn iso(t1: Seq<Node>, t2: Seq<Node>, a: int, b: int) -> bool {
    t1[a].hash == t2[b].hash && t1[a].kind@ == t2[b].kind@
}

/// A destination taken stays taken while links are kept.
proof fn lemma_dst_taken_kept(old: Mapping, new: Mapping, d: usize)
    requires
        old.wf(),
        new.wf(),
        keeps_links(old, new),
        old.bwd().contains_key(d),
    ensures
        new.bwd().contains_key(d),
{
    let s = old.bwd()[d];
    assert(old.fwd().contains_key(s) && old.fwd()[s] == d);
    assert(new.fwd().contains_key(s) && new.fwd()[s] == d);
}

/// Each pair of positions in `pairs` picks a source node of `sn` and a
/// destination node of `dn` with the same structural hash and kind.
spec fn iso_ok(t1: Seq<Node>, t2: Seq<Node>, sn: Seq<usize>, dn: Seq<usize>, pairs: Seq<(usize, usize)>) -> bool {
    forall|q: int|
        0 <= q < pairs.len() ==> {
            let x = sn[(#[trigger] pairs[q]).0 as int] as int;
            let y = dn[pairs[q].1 as int] as int;
            t1[x].hash == t2[y].hash && t1[x].kind@ == t2[y].kind@
        }
}

/// Sum of the subtree sizes of the source sides of `stack`.
spec fn stack_weight(ch: Seq<Seq<usize>>, stack: Seq<(usize, usize)>) -> nat
    decreases stack.len(),
{
    if stack.len() == 0 {
        0
    } else {
        stack_weight(ch, stack.drop_last()) + preorder(ch, stack.last().0 as int).len()
    }
}

/// Links two isomorphic subtrees node-by-node in lockstep.
#[verifier::rlimit(40)]
fn map_isomorphic_subtree(
    source_tree: &Tree,
    source_node: NodeId,
    destination_tree: &Tree,
    destination_node: NodeId,
    mapping: &mut Mapping,
)
    requires
        source_tree.wf(),
        destination_tree.wf(),
        old(mapping).wf(),
        old(mapping).fits(source_tree.arena().len(), destination_tree.arena().len()),
        source_node < source_tree.arena().len(),
        destination_node < destination_tree.arena().len(),
        source_tree.arena().len() <= usize::MAX,
    ensures
        final(mapping).wf(),
        final(mapping).fits(source_tree.arena().len(), destination_tree.arena().len()),
        keeps_links(*old(mapping), *final(mapping)),
        forall|s: usize| #[trigger]
            final(mapping).fwd().contains_key(s) && !old(mapping).fwd().contains_key(s) ==> in_step(
                source_tree.arena(),
                destination_tree.arena(),
                source_node as int,
                destination_node as int,
                s as int,
                final(mapping).fwd()[s] as int,
            ),
        same_tree(source_tree.arena(), destination_tree.arena()) && source_tree.root_id()
            == destination_tree.root_id() && source_node == destination_node && untouched(
            source_tree.arena(),
            *old(mapping),
            source_node as int,
        ) ==> links_itself(source_tree.arena(), *final(mapping), source_node as int),
        !old(mapping).fwd().contains_key(source_node) && !old(mapping).bwd().contains_key(destination_node)
            ==> final(mapping).fwd().contains_key(source_node),
{
    let ghost t1 = source_tree.arena();
    let ghost t2 = destination_tree.arena();
    let ghost ch = kids(t1);
    let ghost start = *mapping;
    let ghost a = source_node as int;
    let ghost b = destination_node as int;
    let ghost same = same_tree(t1, t2) && source_tree.root_id() == destination_tree.root_id() && a == b
        && untouched(t1, start, a);
    proof {
        if same {
            crate::tree::lemma_same_tree_metadata(t1, t2, source_tree.root_id());
        }
    }
    let mut stack: Vec<(NodeId, NodeId)> = Vec::new();
    stack.push((source_node, destination_node));
    proof {
        assert(stack@.drop_last() =~= Seq::<(usize, usize)>::empty());
        assert(follow(t1, t2, a, b, Seq::<int>::empty()) == Some((a, b)));
        assert(stack@[0] == (source_node, destination_node));
        if same {
            assert(crate::tree::arena_wf(t1, source_tree.root_id()));
            assert(in_subtree(parents(t1), a, a));
            assert forall|y: int| #[trigger] in_subtree(parents(t1), a, y) implies (mapping.fwd().contains_key(y as usize)
                && mapping.fwd()[y as usize] == y) || exists|j: int|
                0 <= j < stack@.len() && in_subtree(parents(t1), (#[trigger] stack@[j]).0 as int, y) by {
                assert(stack@[0].0 == a);
                assert(0 <= 0 < stack@.len() && in_subtree(parents(t1), stack@[0].0 as int, y));
            }
            assert(self_walk(t1, a, stack@, *mapping));
        }
    }
    while stack.len() > 0
        invariant
            source_tree.wf(),
            destination_tree.wf(),
            t1 == source_tree.arena(),
            t2 == destination_tree.arena(),
            ch == kids(t1),
            mapping.wf(),
            mapping.fits(t1.len(), t2.len()),
            keeps_links(start, *mapping),
            forall|j: int|
                0 <= j < stack@.len() ==> #[trigger] stack@[j].0 < t1.len() && stack@[j].1 < t2.len(),
            forall|j: int|
                0 <= j < stack@.len() ==> in_step(t1, t2, a, b, (#[trigger] stack@[j]).0 as int, stack@[j].1 as int),
            forall|s: usize| #[trigger]
                mapping.fwd().contains_key(s) && !start.fwd().contains_key(s) ==> in_step(
                    t1,
                    t2,
                    a,
                    b,
                    s as int,
                    mapping.fwd()[s] as int,
                ),
            same == (same_tree(t1, t2) && source_tree.root_id() == destination_tree.root_id() && a == b
                && untouched(t1, start, a)),
            same ==> self_walk(t1, a, stack@, *mapping),
            t1.len() <= usize::MAX,
            !start.fwd().contains_key(source_node) && !start.bwd().contains_key(destination_node) ==> (stack@
                == seq![(source_node, destination_node)] && *mapping == start) || mapping.fwd().contains_key(
                source_node,
            ),
        decreases stack_weight(ch, stack@),
    {
        let ghost before_stack = stack@;
        let (current_source, current_destination) = stack.pop().unwrap();
        proof {
            assert(stack@ == before_stack.drop_last());
            assert(before_stack == stack@.push((current_source, current_destination)));
            assert(before_stack[before_stack.len() - 1] == (current_source, current_destination));
            assert(in_step(t1, t2, a, b, current_source as int, current_destination as int));
            assert forall|j: int| 0 <= j < stack@.len() implies in_step(t1, t2, a, b, (#[trigger] stack@[j]).0 as int, stack@[j].1 as int) by {
                assert(stack@[j] == before_stack[j]);
            }
        }
        let ghost path = choose|path: Seq<int>| #[trigger] follow(t1, t2, a, b, path) == Some((current_source as int, current_destination as int));
        let ghost before = *mapping;
        proof {
            if same {
                assert(before_stack[before_stack.len() - 1] == (current_source, current_destination));
                assert(current_source == current_destination);
                assert(untouched(t1, before, current_source as int));
                assert(crate::tree::arena_wf(t1, source_tree.root_id()));
                assert(in_subtree(parents(t1), current_source as int, current_source as int));
            }
        }
        mapping.link(current_source, current_destination);
        let ghost linked = *mapping;
        let source_children = &source_tree.node(current_source).children;
        let destination_children = &destination_tree.node(current_destination).children;
        let count = source_children.len();
        if count == destination_children.len() {
            // Push in reverse so leftmost pair is processed first.
            let ghost rest = stack@;
            let mut k: usize = count;
            while k > 0
                invariant
                    source_tree.wf(),
                    destination_tree.wf(),
                    t1 == source_tree.arena(),
                    t2 == destination_tree.arena(),
                    ch == kids(t1),
                    current_source < t1.len(),
                    current_destination < t2.len(),
                    *source_children == t1[current_source as int].children,
                    *destination_children == t2[current_destination as int].children,
                    count == source_children@.len(),
                    count == destination_children@.len(),
                    k <= count,
                    stack_weight(ch, stack@) + preorder_kids(ch, current_source as int, k as int).len()
                        == stack_weight(ch, rest) + preorder_kids(ch, current_source as int, count as int).len(),
                    forall|j: int|
                        0 <= j < stack@.len() ==> #[trigger] stack@[j].0 < t1.len() && stack@[j].1 < t2.len(),
                    follow(t1, t2, a, b, path) == Some((current_source as int, current_destination as int)),
                    forall|j: int|
                        0 <= j < stack@.len() ==> in_step(t1, t2, a, b, (#[trigger] stack@[j]).0 as int, stack@[j].1 as int),
                    same ==> current_source == current_destination && stack@ == rest + self_pairs(
                        t1,
                        current_source as int,
                    ).subrange(0, count - k),
                    same ==> same_tree(t1, t2),
                decreases k,
            {
                k -= 1;
                let source_child = source_children[k];
                let destination_child = destination_children[k];
                proof {
                    assert(t1[current_source as int].children@[k as int] == source_child);
                    assert(t2[current_destination as int].children@[k as int] == destination_child);
                    assert(ch[current_source as int][k as int] == source_child);
                }
                let ghost prev = stack@;
                stack.push((source_child, destination_child));
                proof {
                    if same {
                        let sp = self_pairs(t1, current_source as int);
                        assert(sp[count - 1 - k] == (source_child, source_child));
                        assert(stack@ =~= rest + sp.subrange(0, count - k));
                    }
                    let step = path.push(k as int);
                    assert(step.drop_last() =~= path);
                    assert(follow(t1, t2, a, b, step) == Some((source_child as int, destination_child as int)));
                    assert forall|j: int| 0 <= j < stack@.len() implies in_step(t1, t2, a, b, (#[trigger] stack@[j]).0 as int, stack@[j].1 as int) by {
                        if j < prev.len() {
                            assert(stack@[j] == prev[j]);
                        } else {
                            assert(stack@[j] == (source_child, destination_child));
                        }
                    }
                    assert(source_child < t1.len());
                    assert(destination_child < t2.len());
                    assert forall|j: int| 0 <= j < stack@.len() implies #[trigger] stack@[j].0 < t1.len()
                        && stack@[j].1 < t2.len() by {
                        if j < prev.len() {
                            assert(stack@[j] == prev[j]);
                        }
                    }
                    assert(stack@.drop_last() =~= prev);
                    assert(preorder_kids(ch, current_source as int, k + 1) == preorder_kids(
                        ch,
                        current_source as int,
                        k as int,
                    ) + preorder(ch, source_child as int));
                }
            }
            proof {
                assert(preorder(ch, current_source as int) == seq![current_source] + preorder_kids(
                    ch,
                    current_source as int,
                    count as int,
                ));
                if same {
                    let sp = self_pairs(t1, current_source as int);
                    assert(sp.subrange(0, count as int) =~= sp);
                    assert(crate::tree::arena_wf(t1, source_tree.root_id()));
                    lemma_self_walk_step(t1, a, rest, current_source, before, *mapping);
                }
            }
        } else {
            proof {
                if same {
                    assert(current_source == current_destination);
                }
            }
        }
        proof {
            super::lemma_keeps_links_trans(start, before, *mapping);
            if !start.fwd().contains_key(source_node) && !start.bwd().contains_key(destination_node) {
                if before_stack == seq![(source_node, destination_node)] && before == start {
                    assert(current_source == source_node);
                    assert(linked.fwd().contains_key(source_node));
                }
                assert(mapping.fwd().contains_key(source_node));
            }
            assert(preorder(ch, current_source as int) == seq![current_source] + preorder_kids(
                ch,
                current_source as int,
                t1[current_source as int].children@.len() as int,
            ));
        }
    }
}

fn parent_dice(
    source_tree: &Tree,
    destination_tree: &Tree,
    source_node: NodeId,
    destination_node: NodeId,
    mapping: &Mapping,
) -> (r: Ratio)
    requires
        source_tree.wf(),
        destination_tree.wf(),
        destination_tree.arena()[destination_tree.root_id()].parent is None,
        mapping.wf(),
        mapping.fits(source_tree.arena().len(), destination_tree.arena().len()),
        source_node < source_tree.arena().len(),
        in_subtree(parents(destination_tree.arena()), destination_tree.root_id(), destination_node as int),
        source_tree.arena().len() + destination_tree.arena().len() <= usize::MAX / 2,
    ensures
        r.wf(),
{
    let source_parent = source_tree.node(source_node).parent;
    let destination_parent = destination_tree.node(destination_node).parent;
    match (source_parent, destination_parent) {
        (Some(source_parent_id), Some(destination_parent_id)) => {
            proof {
                assert(source_parent_id < source_node);
                assert(destination_parent_id < destination_node);
                let par2 = parents(destination_tree.arena());
                assert(par2[destination_node as int] == destination_tree.arena()[destination_node as int].parent);
                assert(destination_node as int != destination_tree.root_id());
                assert(in_subtree(par2, destination_tree.root_id(), destination_parent_id as int));
            }
            dice_coefficient(
                source_tree,
                source_parent_id,
                destination_tree,
                destination_parent_id,
                mapping,
            )
        },
        _ => Ratio::new(0, 1),
    }
}

/// Dice similarity between two subtrees, given a partial mapping.
///
/// Defined as `2 * |common| / (|desc(n1)| + |desc(n2)|)` where `common` is the
/// number of descendants of `n1` whose mapped image lies within the descendants
/// of `n2`; `0` when neither node has descendants. Returned as an exact fraction.
/// `n2` lies under its tree's root, as the size of its subtree is read.
pub fn dice_coefficient(
    source_tree: &Tree,
    source_node: NodeId,
    destination_tree: &Tree,
    destination_node: NodeId,
    mapping: &Mapping,
) -> (r: Ratio)
    requires
        source_tree.wf(),
        destination_tree.wf(),
        mapping.wf(),
        images_below(*mapping, destination_tree.arena().len()),
        source_node < source_tree.arena().len(),
        in_subtree(parents(destination_tree.arena()), destination_tree.root_id(), destination_node as int),
        source_tree.arena().len() + destination_tree.arena().len() <= usize::MAX / 2,
    ensures
        r.wf(),
        (r.numerator as nat, r.denominator as nat) == dice_spec(
            preorder(kids(source_tree.arena()), source_node as int).drop_first(),
            destination_tree.arena(),
            mapping.fwd(),
            destination_node as int,
        ),
{
    let source_descendants = source_tree.descendants(source_node);
    proof {
        lemma_subtree_size_bound(source_tree.arena(), source_node as int);
    }
    dice_with_source_descendants(
        source_descendants.as_slice(),
        destination_tree,
        destination_node,
        mapping,
    )
}

/// Sorts scored pairs by score, highest first; pairs with equal scores keep
/// their order.
fn sort_by_score_descending(
    scored: Vec<(Ratio, NodeId, NodeId)>,
    Ghost(n1): Ghost<nat>,
    Ghost(n2): Ghost<nat>,
    Ghost(pair_ok): Ghost<spec_fn(usize, usize) -> bool>,
) -> (r: Vec<(Ratio, NodeId, NodeId)>)
    requires
        forall|j: int|
            0 <= j < scored@.len() ==> (#[trigger] scored@[j]).0.wf() && scored@[j].1 < n1 && scored@[j].2 < n2
                && pair_ok(scored@[j].1, scored@[j].2),
    ensures
        r@.len() == scored@.len(),
        forall|j: int| 0 <= j < r@.len() ==> (#[trigger] r@[j]).1 < n1 && r@[j].2 < n2 && pair_ok(r@[j].1, r@[j].2),
        forall|a: int, b: int| 0 <= a < b < r@.len() ==> (#[trigger] r@[a]).0.spec_ge((#[trigger] r@[b]).0),
        forall|j: int| 0 <= j < scored@.len() ==> r@.contains(#[trigger] scored@[j]),
{
    let mut result: Vec<(Ratio, NodeId, NodeId)> = Vec::new();
    let mut k: usize = 0;
    while k < scored.len()
        invariant
            forall|j: int|
                0 <= j < scored@.len() ==> (#[trigger] scored@[j]).0.wf() && scored@[j].1 < n1 && scored@[j].2 < n2
                    && pair_ok(scored@[j].1, scored@[j].2),
            k <= scored@.len(),
            result@.len() == k,
            forall|j: int|
                0 <= j < result@.len() ==> (#[trigger] result@[j]).0.wf() && result@[j].1 < n1 && result@[j].2 < n2
                    && pair_ok(result@[j].1, result@[j].2),
            forall|a: int, b: int|
                0 <= a < b < result@.len() ==> (#[trigger] result@[a]).0.spec_ge((#[trigger] result@[b]).0),
            forall|j: int| #![trigger scored@[j]] 0 <= j < k ==> exists|q: int| #![trigger result@[q]] 0 <= q < result@.len() && result@[q] == scored@[j],
        decreases scored@.len() - k,
    {
        let item = scored[k];
        // Insert after every entry scoring at least as much: ties keep order.
        let mut at: usize = 0;
        while at < result.len() && result[at].0.ge(&item.0)
            invariant
                at <= result@.len(),
                forall|j: int| 0 <= j < at ==> (#[trigger] result@[j]).0.spec_ge(item.0),
            decreases result@.len() - at,
        {
            at += 1;
        }
        let ghost before = result@;
        proof {
            if at < result@.len() {
                assert(!result@[at as int].0.spec_ge(item.0));
                crate::ratio::lemma_ge_total(result@[at as int].0, item.0);
            }
        }
        result.insert(at, item);
        proof {
            assert(result@ == before.insert(at as int, item));
            assert forall|j: int| #![trigger scored@[j]] 0 <= j < k + 1 implies exists|q: int| #![trigger result@[q]] 0 <= q < result@.len() && result@[q] == scored@[j] by {
                if j < k {
                    let q = choose|q: int| #![trigger before[q]] 0 <= q < before.len() && before[q] == scored@[j];
                    if q < at {
                        assert(result@[q] == before[q]);
                    } else {
                        assert(result@[q + 1] == before[q]);
                    }
                } else {
                    assert(result@[at as int] == item);
                }
            }
            assert forall|j: int| 0 <= j < result@.len() implies (#[trigger] result@[j]).0.wf() && result@[j].1 < n1 && result@[j].2 < n2
                && pair_ok(result@[j].1, result@[j].2) by {
                if j < at {
                    assert(result@[j] == before[j]);
                } else if j == at {
                    assert(result@[j] == scored@[k as int]);
                } else {
                    assert(result@[j] == before[j - 1]);
                }
            }
            assert forall|a: int, b: int| 0 <= a < b < result@.len() implies (#[trigger] result@[a]).0.spec_ge(
                (#[trigger] result@[b]).0,
            ) by {
                let ra = result@[a];
                let rb = result@[b];
                if b < at {
                    assert(ra == before[a] && rb == before[b]);
                } else if b == at {
                    assert(ra == before[a]);
                } else if a == at {
                    assert(rb == before[b - 1]);
                    if b - 1 > at {
                        assert(before[at as int].0.spec_ge(before[b - 1].0));
                        crate::ratio::lemma_ge_trans(item.0, before[at as int].0, before[b - 1].0);
                    }
                } else if a < at {
                    assert(ra == before[a] && rb == before[b - 1]);
                } else {
                    assert(ra == before[a - 1] && rb == before[b - 1]);
                }
            }
        }
        k += 1;
    }
    proof {
        assert(k == scored@.len());
        assert forall|j: int| 0 <= j < scored@.len() implies result@.contains(#[trigger] scored@[j]) by {
            assert(0 <= j < k);
            let q = choose|q: int| #![trigger result@[q]] 0 <= q < result@.len() && result@[q] == scored@[j];
            assert(result@[q] == scored@[j]);
        }
    }
    result
}

} // verus!

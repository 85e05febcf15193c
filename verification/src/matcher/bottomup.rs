//! Bottom-up (container) matching phase plus the `SimpleGumTree` recovery step.
//!
//! After the top-down phase has anchored large isomorphic subtrees, this phase
//! walks `T1` in post-order. For each unmapped node whose subtree already
//! contains anchored descendants, it searches for the best container in `T2`
//! by Dice similarity, then runs a cheap greedy recovery for the remaining
//! unmapped descendants inside the matched pair.

use vstd::prelude::*;

use super::{
    common_count, dice_spec, dice_with_source_descendants, frac_ge, frac_gt, images_below, keeps_links,
    lemma_keeps_links_trans, lemma_recovered_same_kind, lemma_recovered_trans, lemma_same_kind_trans,
    new_links_recovered, new_links_same_kind, parents_linked,
};
use crate::mapping::{lemma_fits_backward, Mapping};
use crate::ratio::Ratio;
use crate::tree::{
    in_subtree, kids, lemma_in_subtree_ge, lemma_postorder_in_subtree, lemma_preorder_members,
    lemma_subtree_size_bound, parents, postorder, preorder, Node, NodeId, Tree,
};

verus! {

/// Maximum subtree size for which simple-recovery runs (perf guard).
pub const DEFAULT_MAX_SIZE: usize = 1000;

/// Minimum dice similarity to accept a bottom-up container match: one half.
pub fn default_min_dice() -> (r: Ratio)
    ensures
        r.numerator == 1,
        r.denominator == 2,
        r.wf(),
{
    Ratio::new(1, 2)
}

/// `c` may serve as the container matched to source node `s`: same kind,
/// not yet mapped.
pub open spec fn is_candidate(source_tree: Tree, s: int, destination_tree: Tree, m: Mapping, c: int) -> bool {
    &&& 0 <= c < destination_tree.arena().len()
    &&& destination_tree.arena()[c].kind@ == source_tree.arena()[s].kind@
    &&& !m.bwd().contains_key(c as usize)
}

/// The dice similarity between source node `s` and destination node `c`.
pub open spec fn dice_between(source_tree: Tree, s: int, destination_tree: Tree, m: Mapping, c: int) -> (
    nat,
    nat,
) {
    dice_spec(preorder(kids(source_tree.arena()), s).drop_first(), destination_tree.arena(), m.fwd(), c)
}

/// Some node strictly below `c` is linked in `m`.
pub open spec fn has_mapped_below(t: Seq<Node>, m: Mapping, c: int) -> bool {
    exists|y: int| y != c && #[trigger] in_subtree(parents(t), c, y) && m.fwd().contains_key(y as usize)
}

/// Every link of `new` that `old` lacks starts at or below a node that
/// already had a link below it in `old`.
pub open spec fn grown_from_anchors(t: Seq<Node>, old: Mapping, new: Mapping) -> bool {
    forall|s: usize| #[trigger]
        new.fwd().contains_key(s) && !old.fwd().contains_key(s) ==> exists|c: int|
            #[trigger] has_mapped_below(t, old, c) && in_subtree(parents(t), c, s as int)
}

/// A node has a link below it exactly when one of its children is linked or
/// has a link below it.
proof fn lemma_mapped_below_children(t: Seq<Node>, root: int, m: Mapping, i: int)
    requires
        crate::tree::arena_wf(t, root),
        t.len() <= usize::MAX,
        0 <= i < t.len(),
    ensures
        has_mapped_below(t, m, i) <==> exists|k: int|
            0 <= k < t[i].children@.len() && (m.fwd().contains_key(#[trigger] t[i].children@[k]) || has_mapped_below(
                t,
                m,
                t[i].children@[k] as int,
            )),
{
    let par = parents(t);
    if has_mapped_below(t, m, i) {
        let y = choose|y: int| y != i && #[trigger] in_subtree(par, i, y) && m.fwd().contains_key(y as usize);
        let k = crate::tree::lemma_under_some_child(t, i, y);
        let c = t[i].children@[k] as int;
        if y != c {
            assert(in_subtree(par, c, y));
            assert(has_mapped_below(t, m, c));
        } else {
            assert(m.fwd().contains_key(t[i].children@[k]));
        }
    }
    if exists|k: int|
        0 <= k < t[i].children@.len() && (m.fwd().contains_key(#[trigger] t[i].children@[k]) || has_mapped_below(
            t,
            m,
            t[i].children@[k] as int,
        )) {
        let k = choose|k: int|
            0 <= k < t[i].children@.len() && (m.fwd().contains_key(#[trigger] t[i].children@[k]) || has_mapped_below(
                t,
                m,
                t[i].children@[k] as int,
            ));
        let c = t[i].children@[k] as int;
        assert(i < c < t.len());
        assert(par[c] == t[c].parent);
        if m.fwd().contains_key(t[i].children@[k]) {
            assert(in_subtree(par, c, c));
            crate::tree::lemma_in_subtree_lift(par, i, c, c);
            assert(in_subtree(par, i, c));
        } else {
            let y = choose|y: int| y != c && #[trigger] in_subtree(par, c, y) && m.fwd().contains_key(y as usize);
            crate::tree::lemma_in_subtree_lift(par, i, c, y);
            lemma_in_subtree_ge(par, c, y);
            assert(in_subtree(par, i, y));
        }
    }
}

/// No destination node of `s`'s kind left free in `new` reached `md` in
/// Dice similarity with `s` under `old`: the bottom-up step found no
/// container for `s`.
pub open spec fn no_container(st: Tree, s: int, dt: Tree, old: Mapping, new: Mapping, md: (nat, nat)) -> bool {
    forall|c: int|
        0 <= c < dt.arena().len() && dt.arena()[c].kind@ == st.arena()[s].kind@ && !new.bwd().contains_key(
            c as usize,
        ) ==> !frac_ge(#[trigger] dice_between(st, s, dt, old, c), md)
}

/// A destination taken stays taken, so a node left without a container
/// stays so.
pub proof fn lemma_no_container_kept(
    st: Tree,
    s: int,
    dt: Tree,
    old: Mapping,
    before: Mapping,
    after: Mapping,
    md: (nat, nat),
)
    requires
        before.wf(),
        after.wf(),
        keeps_links(before, after),
        no_container(st, s, dt, old, before, md),
    ensures
        no_container(st, s, dt, old, after, md),
{
    assert forall|c: int|
        0 <= c < dt.arena().len() && dt.arena()[c].kind@ == st.arena()[s].kind@ && !after.bwd().contains_key(
            c as usize,
        ) implies !frac_ge(#[trigger] dice_between(st, s, dt, old, c), md) by {
        if before.bwd().contains_key(c as usize) {
            lemma_taken_kept(before, after, c as usize);
        }
    }
}

/// Links kept can only raise a Dice similarity: the denominator stays and
/// the shared count grows.
proof fn lemma_dice_grows(st: Tree, s: int, dt: Tree, old: Mapping, new: Mapping, c: int, md: (nat, nat))
    requires
        keeps_links(old, new),
        frac_ge(dice_between(st, s, dt, old, c), md),
    ensures
        frac_ge(dice_between(st, s, dt, new, c), md),
{
    let src = preorder(kids(st.arena()), s).drop_first();
    let a = dice_between(st, s, dt, old, c);
    let b = dice_between(st, s, dt, new, c);
    lemma_common_count_grows(src, old, new, parents(dt.arena()), c);
    assert(a.1 == b.1);
    assert(a.0 <= b.0);
    assert(b.0 * md.1 >= md.0 * b.1) by (nonlinear_arith)
        requires
            a.0 <= b.0,
            a.1 == b.1,
            a.0 * md.1 >= md.0 * a.1,
    ;
}

/// Links made while handling entry `i - 1` of the walk keep what the
/// earlier entries had.
proof fn lemma_containers_kept(
    st: Tree,
    dt: Tree,
    start: Mapping,
    before: Mapping,
    after: Mapping,
    md: (nat, nat),
    order: Seq<usize>,
    i: int,
)
    requires
        before.wf(),
        after.wf(),
        keeps_links(before, after),
        0 <= i <= order.len(),
        forall|j: int|
            0 <= j < i ==> (!before.fwd().contains_key(#[trigger] order[j]) && has_mapped_below(
                st.arena(),
                start,
                order[j] as int,
            ) ==> no_container(st, order[j] as int, dt, start, before, md)),
    ensures
        forall|j: int|
            0 <= j < i ==> (!after.fwd().contains_key(#[trigger] order[j]) && has_mapped_below(
                st.arena(),
                start,
                order[j] as int,
            ) ==> no_container(st, order[j] as int, dt, start, after, md)),
{
    assert forall|j: int|
        0 <= j < i && !after.fwd().contains_key(#[trigger] order[j]) && has_mapped_below(
            st.arena(),
            start,
            order[j] as int,
        ) implies no_container(st, order[j] as int, dt, start, after, md) by {
        assert(!before.fwd().contains_key(order[j]));
        lemma_no_container_kept(st, order[j] as int, dt, start, before, after, md);
    }
}

/// `d` is a container `s` may be given: of `s`'s kind, with a Dice
/// similarity under `m` that reaches `md` and is at least that which any
/// node of `s`'s kind still free in `m` had under `old`.
pub open spec fn container_pick(st: Tree, s: int, dt: Tree, old: Mapping, m: Mapping, md: (nat, nat), d: int) -> bool {
    &&& 0 <= d < dt.arena().len()
    &&& dt.arena()[d].kind@ == st.arena()[s].kind@
    &&& frac_ge(dice_between(st, s, dt, m, d), md)
    &&& forall|c: int|
        0 <= c < dt.arena().len() && dt.arena()[c].kind@ == st.arena()[s].kind@ && !m.bwd().contains_key(c as usize)
            ==> frac_ge(dice_between(st, s, dt, m, d), #[trigger] dice_between(st, s, dt, old, c))
}

/// `s` lies strictly below a node newly linked (since `old`) to a container
/// pick: the recovery inside that container linked it.
pub open spec fn below_container(st: Tree, dt: Tree, old: Mapping, m: Mapping, md: (nat, nat), s: int) -> bool {
    exists|c: usize|
        c != s && #[trigger] in_subtree(parents(st.arena()), c as int, s) && m.fwd().contains_key(c)
            && !old.fwd().contains_key(c) && container_pick(st, c as int, dt, old, m, md, m.fwd()[c] as int)
}

/// Every link made since `old` is a container pick or lies below one.
pub open spec fn containers_ok(st: Tree, dt: Tree, old: Mapping, m: Mapping, md: (nat, nat)) -> bool {
    forall|s: usize| #[trigger]
        m.fwd().contains_key(s) && !old.fwd().contains_key(s) ==> container_pick(
            st,
            s as int,
            dt,
            old,
            m,
            md,
            m.fwd()[s] as int,
        ) || below_container(st, dt, old, m, md, s as int)
}

/// A Dice similarity under a mapping is at least that under any mapping
/// whose links it keeps.
proof fn lemma_dice_mono(st: Tree, s: int, dt: Tree, m1: Mapping, m2: Mapping, c: int)
    requires
        keeps_links(m1, m2),
    ensures
        frac_ge(dice_between(st, s, dt, m2, c), dice_between(st, s, dt, m1, c)),
        dice_between(st, s, dt, m1, c).1 > 0,
        dice_between(st, s, dt, m2, c).1 > 0,
{
    let src = preorder(kids(st.arena()), s).drop_first();
    let a = dice_between(st, s, dt, m1, c);
    let b = dice_between(st, s, dt, m2, c);
    lemma_common_count_grows(src, m1, m2, parents(dt.arena()), c);
    super::lemma_dice_denominator(src, dt.arena(), m1.fwd(), c);
    super::lemma_dice_denominator(src, dt.arena(), m2.fwd(), c);
    assert(a.1 == b.1);
    assert(b.0 * a.1 >= a.0 * b.1) by (nonlinear_arith)
        requires
            a.0 <= b.0,
            a.1 == b.1,
    ;
}

/// A container pick stays one while links are kept.
proof fn lemma_container_pick_kept(
    st: Tree,
    s: int,
    dt: Tree,
    old: Mapping,
    m1: Mapping,
    m2: Mapping,
    md: (nat, nat),
    d: int,
)
    requires
        m1.wf(),
        m2.wf(),
        keeps_links(m1, m2),
        md.1 > 0,
        container_pick(st, s, dt, old, m1, md, d),
    ensures
        container_pick(st, s, dt, old, m2, md, d),
{
    lemma_dice_mono(st, s, dt, m1, m2, d);
    lemma_dice_grows(st, s, dt, m1, m2, d, md);
    assert forall|c: int|
        0 <= c < dt.arena().len() && dt.arena()[c].kind@ == st.arena()[s].kind@ && !m2.bwd().contains_key(c as usize)
            implies frac_ge(dice_between(st, s, dt, m2, d), #[trigger] dice_between(st, s, dt, old, c)) by {
        if m1.bwd().contains_key(c as usize) {
            lemma_taken_kept(m1, m2, c as usize);
        }
        lemma_dice_mono(st, s, dt, old, old, c);
        super::lemma_frac_ge_trans(
            dice_between(st, s, dt, m2, d),
            dice_between(st, s, dt, m1, d),
            dice_between(st, s, dt, old, c),
        );
    }
}

/// What `containers_ok` says of one mapping it says of any later one.
proof fn lemma_containers_ok_kept(st: Tree, dt: Tree, old: Mapping, m1: Mapping, m2: Mapping, md: (nat, nat))
    requires
        m1.wf(),
        m2.wf(),
        keeps_links(m1, m2),
        md.1 > 0,
        containers_ok(st, dt, old, m1, md),
    ensures
        forall|s: usize| #[trigger]
            m1.fwd().contains_key(s) && !old.fwd().contains_key(s) ==> container_pick(
                st,
                s as int,
                dt,
                old,
                m2,
                md,
                m2.fwd()[s] as int,
            ) || below_container(st, dt, old, m2, md, s as int),
{
    assert forall|s: usize| #[trigger]
        m1.fwd().contains_key(s) && !old.fwd().contains_key(s) implies container_pick(
            st,
            s as int,
            dt,
            old,
            m2,
            md,
            m2.fwd()[s] as int,
        ) || below_container(st, dt, old, m2, md, s as int) by {
        assert(m2.fwd()[s] == m1.fwd()[s]);
        if container_pick(st, s as int, dt, old, m1, md, m1.fwd()[s] as int) {
            lemma_container_pick_kept(st, s as int, dt, old, m1, m2, md, m1.fwd()[s] as int);
        } else {
            let c = choose|c: usize|
                c != s && #[trigger] in_subtree(parents(st.arena()), c as int, s as int) && m1.fwd().contains_key(c)
                    && !old.fwd().contains_key(c) && container_pick(st, c as int, dt, old, m1, md, m1.fwd()[c] as int);
            lemma_container_pick_kept(st, c as int, dt, old, m1, m2, md, m1.fwd()[c] as int);
            assert(m2.fwd()[c] == m1.fwd()[c]);
        }
    }
}

/// The candidate the search returns is a container pick once linked.
proof fn lemma_found_container(
    st: Tree,
    s: int,
    dt: Tree,
    old: Mapping,
    m1: Mapping,
    m2: Mapping,
    md: (nat, nat),
    d: int,
)
    requires
        m1.wf(),
        m2.wf(),
        keeps_links(old, m1),
        keeps_links(m1, m2),
        md.1 > 0,
        best_so_far(st, s, dt, m1, md, d, dt.arena().len() as int),
    ensures
        container_pick(st, s, dt, old, m2, md, d),
{
    lemma_dice_mono(st, s, dt, m1, m2, d);
    lemma_dice_grows(st, s, dt, m1, m2, d, md);
    assert forall|c: int|
        0 <= c < dt.arena().len() && dt.arena()[c].kind@ == st.arena()[s].kind@ && !m2.bwd().contains_key(c as usize)
            implies frac_ge(dice_between(st, s, dt, m2, d), #[trigger] dice_between(st, s, dt, old, c)) by {
        if m1.bwd().contains_key(c as usize) {
            lemma_taken_kept(m1, m2, c as usize);
        }
        assert(is_candidate(st, s, dt, m1, c));
        lemma_dice_mono(st, s, dt, old, m1, c);
        let dd = dice_between(st, s, dt, m1, d);
        let dc = dice_between(st, s, dt, m1, c);
        if !frac_ge(dc, md) {
            assert(frac_ge(md, dc));
            super::lemma_frac_ge_trans(dd, md, dc);
        }
        assert(frac_ge(dd, dc));
        super::lemma_frac_ge_trans(dice_between(st, s, dt, m2, d), dd, dc);
        super::lemma_frac_ge_trans(dice_between(st, s, dt, m2, d), dc, dice_between(st, s, dt, old, c));
    }
}

/// Every destination node of the kind of some source node under the source
/// root lies under the destination root. The bottom-up phase looks for a
/// container among all destination nodes of a source node's kind and reads
/// the size of each one's subtree, which only the nodes under the root carry.
pub open spec fn candidates_rooted(st: Tree, dt: Tree) -> bool {
    forall|s: int, d: int|
        #[trigger] in_subtree(parents(st.arena()), st.root_id(), s) && 0 <= d < dt.arena().len()
            && st.arena()[s].kind@ == #[trigger] dt.arena()[d].kind@ ==> in_subtree(
            parents(dt.arena()),
            dt.root_id(),
            d,
        )
}

/// A destination tree with every node under its root leaves no candidate
/// outside the root.
pub proof fn lemma_connected_candidates_rooted(st: Tree, dt: Tree)
    requires
        dt.connected(),
    ensures
        candidates_rooted(st, dt),
{
}

/// Runs the bottom-up phase, extending `mapping` in place. The candidate
/// containers of a source node are all destination nodes of its kind, so
/// those must lie under the destination root.
pub fn match_bottom_up(
    source_tree: &Tree,
    destination_tree: &Tree,
    mapping: &mut Mapping,
    min_dice: Ratio,
    max_size: usize,
)
    requires
        source_tree.wf(),
        destination_tree.wf(),
        candidates_rooted(*source_tree, *destination_tree),
        old(mapping).wf(),
        old(mapping).fits(source_tree.arena().len(), destination_tree.arena().len()),
        source_tree.arena().len() + destination_tree.arena().len() <= usize::MAX / 2,
        min_dice.wf(),
    ensures
        final(mapping).wf(),
        final(mapping).fits(source_tree.arena().len(), destination_tree.arena().len()),
        keeps_links(*old(mapping), *final(mapping)),
        new_links_same_kind(source_tree.arena(), destination_tree.arena(), *old(mapping), *final(mapping)),
        grown_from_anchors(source_tree.arena(), *old(mapping), *final(mapping)),
        (forall|s: usize| !#[trigger] old(mapping).fwd().contains_key(s)) ==> forall|s: usize|
            !#[trigger] final(mapping).fwd().contains_key(s),
        containers_ok(
            *source_tree,
            *destination_tree,
            *old(mapping),
            *final(mapping),
            (min_dice.numerator as nat, min_dice.denominator as nat),
        ),
        forall|j: int|
            0 <= j < postorder(kids(source_tree.arena()), source_tree.root_id()).len() ==> {
                let s = #[trigger] postorder(kids(source_tree.arena()), source_tree.root_id())[j];
                !final(mapping).fwd().contains_key(s) && has_mapped_below(source_tree.arena(), *old(mapping), s as int)
                    ==> no_container(
                    *source_tree,
                    s as int,
                    *destination_tree,
                    *old(mapping),
                    *final(mapping),
                    (min_dice.numerator as nat, min_dice.denominator as nat),
                )
            },
{
    let ghost t1 = source_tree.arena();
    let ghost t2 = destination_tree.arena();
    let ghost start = *mapping;
    let n1 = source_tree.node_count();

    // Precompute which subtrees contain at least one matched descendant:
    // children have larger ids than their parent, so one pass from the
    // highest id down sees every child before its parent.
    let mut has_matched: Vec<bool> = Vec::with_capacity(n1);
    let mut fill: usize = 0;
    while fill < n1
        invariant
            fill <= n1,
            has_matched@.len() == fill,
        decreases n1 - fill,
    {
        has_matched.push(false);
        fill += 1;
    }
    let mut i: usize = n1;
    while i > 0
        invariant
            source_tree.wf(),
            t1 == source_tree.arena(),
            n1 == t1.len(),
            i <= n1,
            has_matched@.len() == n1,
            *mapping == start,
            forall|j: int| i <= j < n1 ==> #[trigger] has_matched@[j] == has_mapped_below(t1, start, j),
        decreases i,
    {
        i -= 1;
        let children = &source_tree.node(i).children;
        let mut any = false;
        let mut k: usize = 0;
        while k < children.len()
            invariant
                source_tree.wf(),
                t1 == source_tree.arena(),
                n1 == t1.len(),
                i < n1,
                *children == t1[i as int].children,
                has_matched@.len() == n1,
                k <= children@.len(),
                *mapping == start,
                forall|j: int| i < j < n1 ==> #[trigger] has_matched@[j] == has_mapped_below(t1, start, j),
                any == exists|q: int|
                    0 <= q < k && (start.fwd().contains_key(#[trigger] children@[q]) || has_mapped_below(
                        t1,
                        start,
                        children@[q] as int,
                    )),
            decreases children@.len() - k,
        {
            let child = children[k];
            assert(t1[i as int].children@[k as int] == child);
            proof {
                assert(i < child < n1);
            }
            if mapping.has_src(child) || has_matched[child] {
                any = true;
            }
            k += 1;
        }
        proof {
            lemma_mapped_below_children(t1, source_tree.root_id(), start, i as int);
        }
        has_matched.set(i, any);
    }

    let root1 = source_tree.root();
    let order = source_tree.post_order(root1);
    proof {
        lemma_postorder_in_subtree(t1, root1 as int);
    }
    let mut index: usize = 0;
    while index < order.len()
        invariant
            source_tree.wf(),
            destination_tree.wf(),
            candidates_rooted(*source_tree, *destination_tree),
            root1 as int == source_tree.root_id(),
            t1 == source_tree.arena(),
            t2 == destination_tree.arena(),
            n1 == t1.len(),
            t1.len() + t2.len() <= usize::MAX / 2,
            min_dice.wf(),
            has_matched@.len() == n1,
            order@ == postorder(kids(t1), root1 as int),
            forall|j: int|
                0 <= j < order@.len() ==> in_subtree(parents(t1), root1 as int, #[trigger] order@[j] as int),
            mapping.wf(),
            mapping.fits(t1.len(), t2.len()),
            keeps_links(start, *mapping),
            new_links_same_kind(t1, t2, start, *mapping),
            index <= order@.len(),
            forall|j: int| 0 <= j < n1 ==> #[trigger] has_matched@[j] == has_mapped_below(t1, start, j),
            grown_from_anchors(t1, start, *mapping),
            t1.len() <= usize::MAX,
            start.wf(),
            min_dice.denominator > 0,
            containers_ok(
                *source_tree,
                *destination_tree,
                start,
                *mapping,
                (min_dice.numerator as nat, min_dice.denominator as nat),
            ),
            forall|j: int|
                0 <= j < index ==> (!mapping.fwd().contains_key(#[trigger] order@[j]) && has_mapped_below(
                    t1,
                    start,
                    order@[j] as int,
                ) ==> no_container(
                    *source_tree,
                    order@[j] as int,
                    *destination_tree,
                    start,
                    *mapping,
                    (min_dice.numerator as nat, min_dice.denominator as nat),
                )),
        decreases order@.len() - index,
    {
        let source_node = order[index];
        proof {
            assert(in_subtree(parents(t1), root1 as int, source_node as int));
            lemma_in_subtree_ge(parents(t1), root1 as int, source_node as int);
        }
        let ghost j0 = index as int;
        let ghost md = (min_dice.numerator as nat, min_dice.denominator as nat);
        index += 1;
        if mapping.has_src(source_node) {
            continue;
        }
        if !has_matched[source_node] {
            continue;
        }
        let destination_node = match find_candidate(
            source_tree,
            source_node,
            destination_tree,
            mapping,
            min_dice,
        ) {
            Some(d) => d,
            None => {
                proof {
                    assert forall|c: int|
                        0 <= c < t2.len() && t2[c].kind@ == t1[source_node as int].kind@ && !mapping.bwd().contains_key(
                            c as usize,
                        ) implies !frac_ge(#[trigger] dice_between(*source_tree, source_node as int, *destination_tree, start, c), md) by {
                        assert(is_candidate(*source_tree, source_node as int, *destination_tree, *mapping, c));
                        if frac_ge(dice_between(*source_tree, source_node as int, *destination_tree, start, c), md) {
                            lemma_dice_grows(*source_tree, source_node as int, *destination_tree, start, *mapping, c, md);
                        }
                    }
                    assert(no_container(*source_tree, order@[j0] as int, *destination_tree, start, *mapping, md));
                }
                continue;
            },
        };

        let ghost before = *mapping;
        mapping.link(source_node, destination_node);
        proof {
            lemma_containers_ok_kept(*source_tree, *destination_tree, start, before, *mapping, md);
            lemma_found_container(
                *source_tree,
                source_node as int,
                *destination_tree,
                start,
                before,
                *mapping,
                md,
                destination_node as int,
            );
            assert(containers_ok(*source_tree, *destination_tree, start, *mapping, md));
            lemma_containers_kept(*source_tree, *destination_tree, start, before, *mapping, md, order@, j0);
            assert(mapping.fwd().contains_key(order@[j0]));
            lemma_keeps_links_trans(start, before, *mapping);
            assert(new_links_same_kind(t1, t2, before, *mapping));
            lemma_same_kind_trans(t1, t2, start, before, *mapping);
            let c = source_node as int;
            assert(has_mapped_below(t1, start, c));
            assert(in_subtree(parents(t1), c, c));
            assert forall|s: usize| #[trigger]
                mapping.fwd().contains_key(s) && !start.fwd().contains_key(s) implies exists|c: int|
                #[trigger] has_mapped_below(t1, start, c) && in_subtree(parents(t1), c, s as int) by {
                if !before.fwd().contains_key(s) {
                    assert(s == source_node);
                    assert(has_mapped_below(t1, start, source_node as int) && in_subtree(
                        parents(t1),
                        source_node as int,
                        s as int,
                    ));
                }
            }
        }

        proof {
            assert(t2[destination_node as int].kind@ == t1[source_node as int].kind@);
            assert(in_subtree(parents(t2), destination_tree.root_id(), destination_node as int));
        }
        let source_size = source_tree.node(source_node).size;
        let destination_size = destination_tree.node(destination_node).size;
        let max_subtree_size = if source_size >= destination_size {
            source_size
        } else {
            destination_size
        };

        if max_subtree_size < max_size {
            let ghost middle = *mapping;
            recover_simple(
                source_tree,
                source_node,
                destination_tree,
                destination_node,
                mapping,
            );
            proof {
                let md = (min_dice.numerator as nat, min_dice.denominator as nat);
                lemma_containers_ok_kept(*source_tree, *destination_tree, start, middle, *mapping, md);
                lemma_container_pick_kept(
                    *source_tree,
                    source_node as int,
                    *destination_tree,
                    start,
                    middle,
                    *mapping,
                    md,
                    destination_node as int,
                );
                lemma_preorder_members(t1, source_node as int);
                assert forall|s: usize| #[trigger]
                    mapping.fwd().contains_key(s) && !start.fwd().contains_key(s) implies container_pick(
                    *source_tree,
                    s as int,
                    *destination_tree,
                    start,
                    *mapping,
                    md,
                    mapping.fwd()[s] as int,
                ) || below_container(*source_tree, *destination_tree, start, *mapping, md, s as int) by {
                    if !middle.fwd().contains_key(s) {
                        let sources = preorder(kids(t1), source_node as int).drop_first();
                        assert(sources.contains(s));
                        let q = choose|q: int| 0 <= q < sources.len() && sources[q] == s;
                        let pre = preorder(kids(t1), source_node as int);
                        assert(pre[q + 1] == s);
                        assert(pre[0] == source_node);
                        assert(s != source_node);
                        assert(in_subtree(parents(t1), source_node as int, s as int));
                        assert(mapping.fwd()[source_node] == destination_node);
                    }
                }
                lemma_containers_kept(
                    *source_tree,
                    *destination_tree,
                    start,
                    middle,
                    *mapping,
                    (min_dice.numerator as nat, min_dice.denominator as nat),
                    order@,
                    index as int,
                );
                lemma_keeps_links_trans(start, middle, *mapping);
                lemma_same_kind_trans(t1, t2, start, middle, *mapping);
                let sources = preorder(kids(t1), source_node as int).drop_first();
                lemma_preorder_members(t1, source_node as int);
                assert(has_mapped_below(t1, start, source_node as int));
                assert forall|s: usize| #[trigger]
                    mapping.fwd().contains_key(s) && !start.fwd().contains_key(s) implies exists|c: int|
                    #[trigger] has_mapped_below(t1, start, c) && in_subtree(parents(t1), c, s as int) by {
                    if !middle.fwd().contains_key(s) {
                        assert(sources.contains(s));
                        let q = choose|q: int| 0 <= q < sources.len() && sources[q] == s;
                        assert(preorder(kids(t1), source_node as int)[q + 1] == s);
                        assert(in_subtree(parents(t1), source_node as int, s as int));
                    }
                }
            }
        }
    }
    proof {
        if forall|s: usize| !#[trigger] start.fwd().contains_key(s) {
            assert forall|s: usize| !#[trigger] mapping.fwd().contains_key(s) by {
                if mapping.fwd().contains_key(s) {
                    let c = choose|c: int| #[trigger] has_mapped_below(t1, start, c) && in_subtree(parents(t1), c, s as int);
                    let y = choose|y: int| y != c && #[trigger] in_subtree(parents(t1), c, y) && start.fwd().contains_key(y as usize);
                }
            }
        }
    }
}

/// Among the candidates below `upto` that reach `md`, `d` has the highest
/// similarity, and every later one is strictly lower.
pub open spec fn best_so_far(st: Tree, s: int, dt: Tree, m: Mapping, md: (nat, nat), d: int, upto: int) -> bool {
    &&& 0 <= d < upto
    &&& is_candidate(st, s, dt, m, d)
    &&& frac_ge(dice_between(st, s, dt, m, d), md)
    &&& forall|c: int|
        #![trigger is_candidate(st, s, dt, m, c)]
        0 <= c < upto && is_candidate(st, s, dt, m, c) && frac_ge(dice_between(st, s, dt, m, c), md)
            ==> frac_ge(dice_between(st, s, dt, m, d), dice_between(st, s, dt, m, c)) && (c > d
            ==> frac_gt(dice_between(st, s, dt, m, d), dice_between(st, s, dt, m, c)))
}

/// No candidate below `upto` reaches `md`.
pub open spec fn none_so_far(st: Tree, s: int, dt: Tree, m: Mapping, md: (nat, nat), upto: int) -> bool {
    forall|c: int|
        #![trigger is_candidate(st, s, dt, m, c)]
        0 <= c < upto && is_candidate(st, s, dt, m, c) ==> !frac_ge(dice_between(st, s, dt, m, c), md)
}

proof fn lemma_take_new_best(
    st: Tree,
    s: int,
    dt: Tree,
    m: Mapping,
    md: (nat, nat),
    previous: Option<int>,
    c0: int,
)
    requires
        match previous {
            Some(d) => best_so_far(st, s, dt, m, md, d, c0) && frac_ge(
                dice_between(st, s, dt, m, c0),
                dice_between(st, s, dt, m, d),
            ),
            None => none_so_far(st, s, dt, m, md, c0),
        },
        0 <= c0,
        is_candidate(st, s, dt, m, c0),
        frac_ge(dice_between(st, s, dt, m, c0), md),
    ensures
        best_so_far(st, s, dt, m, md, c0, c0 + 1),
{
    let src = preorder(kids(st.arena()), s).drop_first();
    let dc = dice_between(st, s, dt, m, c0);
    assert forall|c: int|
        #![trigger is_candidate(st, s, dt, m, c)]
        0 <= c < c0 + 1 && is_candidate(st, s, dt, m, c) && frac_ge(dice_between(st, s, dt, m, c), md)
            implies frac_ge(dc, dice_between(st, s, dt, m, c)) && (c > c0 ==> frac_gt(
            dc,
            dice_between(st, s, dt, m, c),
        )) by {
        if c < c0 {
            match previous {
                Some(d) => {
                    super::lemma_dice_denominator(src, dt.arena(), m.fwd(), c);
                    super::lemma_dice_denominator(src, dt.arena(), m.fwd(), d);
                    super::lemma_dice_denominator(src, dt.arena(), m.fwd(), c0);
                    super::lemma_frac_ge_trans(
                        dc,
                        dice_between(st, s, dt, m, d),
                        dice_between(st, s, dt, m, c),
                    );
                },
                None => {},
            }
        }
    }
}

proof fn lemma_keep_best(st: Tree, s: int, dt: Tree, m: Mapping, md: (nat, nat), d: int, c0: int)
    requires
        best_so_far(st, s, dt, m, md, d, c0),
        is_candidate(st, s, dt, m, c0) && frac_ge(dice_between(st, s, dt, m, c0), md) ==> !frac_ge(
            dice_between(st, s, dt, m, c0),
            dice_between(st, s, dt, m, d),
        ),
    ensures
        best_so_far(st, s, dt, m, md, d, c0 + 1),
{
}

proof fn lemma_keep_none(st: Tree, s: int, dt: Tree, m: Mapping, md: (nat, nat), c0: int)
    requires
        none_so_far(st, s, dt, m, md, c0),
        is_candidate(st, s, dt, m, c0) ==> !frac_ge(dice_between(st, s, dt, m, c0), md),
    ensures
        none_so_far(st, s, dt, m, md, c0 + 1),
{
}

/// Best unmapped node in T2 with the same kind, by dice similarity: the
/// last one among those with the highest similarity, provided it reaches
/// `min_dice`.
fn find_candidate(
    source_tree: &Tree,
    source_node: NodeId,
    destination_tree: &Tree,
    mapping: &Mapping,
    min_dice: Ratio,
) -> (r: Option<NodeId>)
    requires
        source_tree.wf(),
        destination_tree.wf(),
        candidates_rooted(*source_tree, *destination_tree),
        mapping.wf(),
        mapping.fits(source_tree.arena().len(), destination_tree.arena().len()),
        in_subtree(parents(source_tree.arena()), source_tree.root_id(), source_node as int),
        source_node < source_tree.arena().len(),
        source_tree.arena().len() + destination_tree.arena().len() <= usize::MAX / 2,
        min_dice.wf(),
    ensures
        match r {
            Some(d) => best_so_far(
                *source_tree,
                source_node as int,
                *destination_tree,
                *mapping,
                (min_dice.numerator as nat, min_dice.denominator as nat),
                d as int,
                destination_tree.arena().len() as int,
            ),
            None => none_so_far(
                *source_tree,
                source_node as int,
                *destination_tree,
                *mapping,
                (min_dice.numerator as nat, min_dice.denominator as nat),
                destination_tree.arena().len() as int,
            ),
        },
{
    let ghost t2 = destination_tree.arena();
    let ghost st = *source_tree;
    let ghost dt = *destination_tree;
    let ghost m = *mapping;
    let ghost s = source_node as int;
    let ghost md = (min_dice.numerator as nat, min_dice.denominator as nat);
    let kind = &source_tree.node(source_node).kind;

    // Hoist the source-side descendant collection out of the candidate loop.
    let source_descendants = source_tree.descendants(source_node);
    proof {
        lemma_subtree_size_bound(source_tree.arena(), source_node as int);
    }

    let n2 = destination_tree.node_count();
    let mut best: Option<(NodeId, Ratio)> = None;
    let mut candidate: usize = 0;
    while candidate < n2
        invariant
            source_tree.wf(),
            destination_tree.wf(),
            candidates_rooted(*source_tree, *destination_tree),
            in_subtree(parents(source_tree.arena()), source_tree.root_id(), source_node as int),
            mapping.wf(),
            mapping.fits(source_tree.arena().len(), destination_tree.arena().len()),
            st == *source_tree,
            dt == *destination_tree,
            m == *mapping,
            s == source_node as int,
            t2 == destination_tree.arena(),
            n2 == t2.len(),
            source_node < source_tree.arena().len(),
            *kind == source_tree.arena()[source_node as int].kind,
            source_descendants@ == preorder(kids(source_tree.arena()), source_node as int).drop_first(),
            source_descendants@.len() + t2.len() <= usize::MAX / 2,
            md == (min_dice.numerator as nat, min_dice.denominator as nat),
            min_dice.wf(),
            candidate <= n2,
            match best {
                Some((d, dice)) => {
                    &&& best_so_far(st, s, dt, m, md, d as int, candidate as int)
                    &&& dice.wf()
                    &&& (dice.numerator as nat, dice.denominator as nat) == dice_between(st, s, dt, m, d as int)
                },
                None => none_so_far(st, s, dt, m, md, candidate as int),
            },
        decreases n2 - candidate,
    {
        let node = destination_tree.node(candidate);
        let ghost before = best;
        if node.kind == *kind && !mapping.has_dst(candidate) {
            proof {
                assert(t2[candidate as int].kind@ == source_tree.arena()[source_node as int].kind@);
                assert(in_subtree(parents(t2), destination_tree.root_id(), candidate as int));
                crate::mapping::lemma_fits_backward(*mapping, source_tree.arena().len(), t2.len());
            }
            let dice = dice_with_source_descendants(
                source_descendants.as_slice(),
                destination_tree,
                candidate,
                mapping,
            );
            proof {
                assert(is_candidate(st, s, dt, m, candidate as int));
                assert((dice.numerator as nat, dice.denominator as nat) == dice_between(st, s, dt, m, candidate as int));
            }
            if dice.ge(&min_dice) {
                let replace = match best {
                    None => true,
                    Some((_, best_dice)) => dice.ge(&best_dice),
                };
                if replace {
                    proof {
                        let previous = match before {
                            Some((d, _)) => Some(d as int),
                            None => None,
                        };
                        lemma_take_new_best(st, s, dt, m, md, previous, candidate as int);
                    }
                    best = Some((candidate, dice));
                } else {
                    proof {
                        let (d, _) = before.unwrap();
                        lemma_keep_best(st, s, dt, m, md, d as int, candidate as int);
                    }
                }
            } else {
                proof {
                    match before {
                        Some((d, _)) => lemma_keep_best(st, s, dt, m, md, d as int, candidate as int),
                        None => lemma_keep_none(st, s, dt, m, md, candidate as int),
                    }
                }
            }
        } else {
            proof {
                assert(!is_candidate(st, s, dt, m, candidate as int));
                match before {
                    Some((d, _)) => lemma_keep_best(st, s, dt, m, md, d as int, candidate as int),
                    None => lemma_keep_none(st, s, dt, m, md, candidate as int),
                }
            }
        }
        candidate += 1;
    }
    match best {
        Some((d, _)) => Some(d),
        None => None,
    }
}

/// An inner node free under `old` is still free after a step that links
/// only leaves, and its Dice similarity can only have grown; so what the
/// inner step left holds from `old` on.
proof fn lemma_no_inner_candidate_from(
    t1: Seq<Node>,
    t2: Seq<Node>,
    destinations: Seq<usize>,
    old: Mapping,
    mid: Mapping,
    new: Mapping,
    s: usize,
)
    requires
        keeps_links(old, mid),
        forall|d: usize| #[trigger]
            mid.bwd().contains_key(d) && !old.bwd().contains_key(d) ==> t2[d as int].children@.len() == 0,
        no_inner_candidate(t1, t2, destinations, mid, new, s),
    ensures
        no_inner_candidate(t1, t2, destinations, old, new, s),
{
    assert forall|k: int|
        0 <= k < destinations.len() && !old.bwd().contains_key(#[trigger] destinations[k])
            && t2[destinations[k] as int].children@.len() > 0 && t2[destinations[k] as int].kind@ == t1[s as int].kind@
            && t2[destinations[k] as int].label@ == t1[s as int].label@ implies new.bwd().contains_key(destinations[k])
        || zero_dice(t1, t2, old, s, destinations[k]) by {
        assert(!mid.bwd().contains_key(destinations[k]));
        if zero_dice(t1, t2, mid, s, destinations[k]) {
            lemma_common_count_grows(
                preorder(kids(t1), s as int).drop_first(),
                old,
                mid,
                parents(t2),
                destinations[k] as int,
            );
        }
    }
}

/// What the parent step left holds from any earlier mapping whose links it
/// kept.
proof fn lemma_siblings_taken_from(t1: Seq<Node>, t2: Seq<Node>, old: Mapping, mid: Mapping, new: Mapping, s: usize)
    requires
        keeps_links(old, mid),
        siblings_taken(t1, t2, mid, new, s),
    ensures
        siblings_taken(t1, t2, old, new, s),
{
    match t1[s as int].parent {
        Some(p) => {
            if old.fwd().contains_key(p) {
                assert(mid.fwd().contains_key(p) && mid.fwd()[p] == old.fwd()[p]);
            }
        },
        None => {},
    }
}

/// `SimpleGumTree`'s cheap recovery: match remaining unmapped descendants by
/// (kind, label) first, then by (mapped parent + kind + sibling position).
///
/// Exposed so that integrating code (e.g. [`crate::matcher::match_trees`])
/// can invoke recovery as a fallback after both matching phases. The
/// destination node lies under its tree's root.
pub fn recover_simple(
    source_tree: &Tree,
    source_node: NodeId,
    destination_tree: &Tree,
    destination_node: NodeId,
    mapping: &mut Mapping,
)
    requires
        source_tree.wf(),
        destination_tree.wf(),
        old(mapping).wf(),
        old(mapping).fits(source_tree.arena().len(), destination_tree.arena().len()),
        source_tree.arena().len() + destination_tree.arena().len() <= usize::MAX / 2,
        source_node < source_tree.arena().len(),
        in_subtree(parents(destination_tree.arena()), destination_tree.root_id(), destination_node as int),
    ensures
        final(mapping).wf(),
        final(mapping).fits(source_tree.arena().len(), destination_tree.arena().len()),
        keeps_links(*old(mapping), *final(mapping)),
        new_links_same_kind(source_tree.arena(), destination_tree.arena(), *old(mapping), *final(mapping)),
        new_links_recovered(
            source_tree.arena(),
            destination_tree.arena(),
            preorder(kids(source_tree.arena()), source_node as int).drop_first(),
            preorder(kids(destination_tree.arena()), destination_node as int).drop_first(),
            *old(mapping),
            *final(mapping),
        ),
        forall|s: usize, d: usize|
            #[trigger] lone_leaf_pair(
                source_tree.arena(),
                destination_tree.arena(),
                preorder(kids(source_tree.arena()), source_node as int).drop_first(),
                preorder(kids(destination_tree.arena()), destination_node as int).drop_first(),
                *old(mapping),
                s,
                d,
            ) ==> final(mapping).fwd().contains_key(s) && final(mapping).fwd()[s] == d,
        forall|s: usize|
            #![trigger preorder(kids(source_tree.arena()), source_node as int).drop_first().contains(s)]
            preorder(kids(source_tree.arena()), source_node as int).drop_first().contains(s)
                && !final(mapping).fwd().contains_key(s) ==> siblings_taken(
                source_tree.arena(),
                destination_tree.arena(),
                *old(mapping),
                *final(mapping),
                s,
            ) && (source_tree.arena()[s as int].children@.len() > 0 ==> no_inner_candidate(
                source_tree.arena(),
                destination_tree.arena(),
                preorder(kids(destination_tree.arena()), destination_node as int).drop_first(),
                *old(mapping),
                *final(mapping),
                s,
            )),
{
    let ghost t1 = source_tree.arena();
    let ghost t2 = destination_tree.arena();
    let ghost start = *mapping;
    let source_descendants = source_tree.descendants(source_node);
    let destination_descendants = destination_tree.descendants(destination_node);
    proof {
        lemma_preorder_members(t1, source_node as int);
        lemma_preorder_members(t2, destination_node as int);
        let ps = preorder(kids(t1), source_node as int);
        let pd = preorder(kids(t2), destination_node as int);
        assert forall|j: int| 0 <= j < source_descendants@.len() implies #[trigger] source_descendants@[j] < t1.len() by {
            assert(source_descendants@[j] == ps[j + 1]);
            lemma_in_subtree_ge(parents(t1), source_node as int, ps[j + 1] as int);
        }
        assert forall|j: int| 0 <= j < destination_descendants@.len() implies #[trigger] destination_descendants@[j] < t2.len()
            && in_subtree(parents(t2), destination_tree.root_id(), destination_descendants@[j] as int) by {
            assert(destination_descendants@[j] == pd[j + 1]);
            lemma_in_subtree_ge(parents(t2), destination_node as int, pd[j + 1] as int);
            crate::tree::lemma_in_subtree_trans(parents(t2), destination_tree.root_id(), destination_node as int, pd[j + 1] as int);
        }
        lemma_subtree_size_bound(t1, source_node as int);
        lemma_subtree_size_bound(t2, destination_node as int);
    }

    recover_exact_leaves(
        source_tree,
        destination_tree,
        &source_descendants,
        &destination_descendants,
        mapping,
    );
    let ghost after_leaves = *mapping;

    recover_inner_nodes(
        source_tree,
        destination_tree,
        &source_descendants,
        &destination_descendants,
        mapping,
    );
    let ghost after_inner = *mapping;
    proof {
        lemma_keeps_links_trans(start, after_leaves, after_inner);
        lemma_recovered_trans(t1, t2, source_descendants@, destination_descendants@, start, after_leaves, after_inner);
    }

    recover_by_parent(source_tree, destination_tree, &source_descendants, mapping, Ghost(destination_descendants@));
    proof {
        lemma_keeps_links_trans(start, after_inner, *mapping);
        lemma_recovered_trans(t1, t2, source_descendants@, destination_descendants@, start, after_inner, *mapping);
        lemma_recovered_same_kind(t1, t2, source_descendants@, destination_descendants@, start, *mapping);
        let sids = source_descendants@;
        let dids = destination_descendants@;
        assert forall|s: usize, d: usize| #[trigger] lone_leaf_pair(t1, t2, sids, dids, start, s, d) implies mapping.fwd().contains_key(s)
            && mapping.fwd()[s] == d by {
            assert(after_leaves.fwd().contains_key(s) && after_leaves.fwd()[s] == d);
        }
        assert forall|d: usize| #[trigger]
            after_leaves.bwd().contains_key(d) && !start.bwd().contains_key(d) implies t2[d as int].children@.len() == 0 by {
            broadcast use vstd::seq_lib::group_filter_ensures;

            let s = after_leaves.bwd()[d];
            assert(after_leaves.fwd().contains_key(s) && after_leaves.fwd()[s] == d);
            if start.fwd().contains_key(s) {
                assert(start.bwd().contains_key(start.fwd()[s]));
            }
            assert(lone_leaf_pair(t1, t2, sids, dids, start, s, d));
            let f = open_leaves_with(t2, dids, start.bwd(), t1[s as int].kind@, t1[s as int].label@);
            assert(f[0] == d);
            assert(open_leaf_with(t2, start.bwd(), t1[s as int].kind@, t1[s as int].label@)(f[0]));
        }
        assert forall|s: usize| sids.contains(s) && !mapping.fwd().contains_key(s) implies siblings_taken(
            t1,
            t2,
            start,
            *mapping,
            s,
        ) && (t1[s as int].children@.len() > 0 ==> no_inner_candidate(t1, t2, dids, start, *mapping, s)) by {
            let q = choose|q: int| 0 <= q < sids.len() && sids[q] == s;
            assert(!mapping.fwd().contains_key(sids[q]));
            lemma_siblings_taken_from(t1, t2, start, after_inner, *mapping, s);
            if t1[s as int].children@.len() > 0 {
                assert(!after_inner.fwd().contains_key(sids[q]));
                assert(no_inner_candidate(t1, t2, dids, after_leaves, after_inner, s));
                lemma_no_candidate_kept_one(t1, t2, dids, after_leaves, after_inner, *mapping, s);
                lemma_no_inner_candidate_from(t1, t2, dids, start, after_leaves, *mapping, s);
            }
        }
    }
}

/// Picks the entries that are unmapped (not keys of `taken`) leaves of `t`
/// with the given kind and label.
pub open spec fn open_leaf_with(t: Seq<Node>, taken: Map<usize, usize>, kind: Seq<char>, label: Seq<char>) -> spec_fn(
    usize,
) -> bool {
    |x: usize|
        !taken.contains_key(x) && t[x as int].children@.len() == 0 && t[x as int].kind@ == kind
            && t[x as int].label@ == label
}

/// The entries of `ids` that are unmapped leaves of `t` with the given kind
/// and label, in order.
pub open spec fn open_leaves_with(
    t: Seq<Node>,
    ids: Seq<usize>,
    taken: Map<usize, usize>,
    kind: Seq<char>,
    label: Seq<char>,
) -> Seq<usize> {
    ids.filter(open_leaf_with(t, taken, kind, label))
}

/// Source entry `s` is the only unmapped leaf with its kind and label among
/// the source entries, and destination entry `d` the only one among the
/// destination entries.
pub open spec fn lone_leaf_pair(
    t1: Seq<Node>,
    t2: Seq<Node>,
    sources: Seq<usize>,
    destinations: Seq<usize>,
    m: Mapping,
    s: usize,
    d: usize,
) -> bool {
    let kind = t1[s as int].kind@;
    let label = t1[s as int].label@;
    &&& open_leaves_with(t1, sources, m.fwd(), kind, label) == seq![s]
    &&& open_leaves_with(t2, destinations, m.bwd(), kind, label) == seq![d]
}

/// A lone pair is fixed by either of its ends.
proof fn lemma_lone_pair_unique(
    t1: Seq<Node>,
    t2: Seq<Node>,
    sources: Seq<usize>,
    destinations: Seq<usize>,
    m: Mapping,
    s1: usize,
    d1: usize,
    s2: usize,
    d2: usize,
)
    requires
        lone_leaf_pair(t1, t2, sources, destinations, m, s1, d1),
        lone_leaf_pair(t1, t2, sources, destinations, m, s2, d2),
        s1 == s2 || d1 == d2,
    ensures
        s1 == s2 && d1 == d2,
{
    broadcast use vstd::seq_lib::group_filter_ensures;

    let f1 = open_leaves_with(t2, destinations, m.bwd(), t1[s1 as int].kind@, t1[s1 as int].label@);
    let f2 = open_leaves_with(t2, destinations, m.bwd(), t1[s2 as int].kind@, t1[s2 as int].label@);
    assert(f1[0] == d1);
    assert(f2[0] == d2);
    if d1 == d2 {
        assert(open_leaf_with(t2, m.bwd(), t1[s1 as int].kind@, t1[s1 as int].label@)(f1[0]));
        assert(open_leaf_with(t2, m.bwd(), t1[s2 as int].kind@, t1[s2 as int].label@)(f2[0]));
        let e1 = open_leaves_with(t1, sources, m.fwd(), t1[s1 as int].kind@, t1[s1 as int].label@);
        let e2 = open_leaves_with(t1, sources, m.fwd(), t1[s2 as int].kind@, t1[s2 as int].label@);
        assert(e1 == e2);
        assert(e1[0] == s1);
        assert(e2[0] == s2);
    }
}

/// Phase 1a: exact (kind, label) pairing for LEAF nodes only. A leaf is
/// linked only when its (kind, label) is unique among the unmapped source
/// leaves and among the unmapped destination leaves: common tokens like
/// `def`, `(`, `)` have multiple candidates and would pollute Dice scores if
/// matched arbitrarily. The links made are exactly those lone pairs.
fn recover_exact_leaves(
    source_tree: &Tree,
    destination_tree: &Tree,
    source_descendants: &Vec<NodeId>,
    destination_descendants: &Vec<NodeId>,
    mapping: &mut Mapping,
)
    requires
        source_tree.wf(),
        destination_tree.wf(),
        old(mapping).wf(),
        old(mapping).fits(source_tree.arena().len(), destination_tree.arena().len()),
        forall|j: int|
            0 <= j < source_descendants@.len() ==> #[trigger] source_descendants@[j]
                < source_tree.arena().len(),
        forall|j: int|
            0 <= j < destination_descendants@.len() ==> #[trigger] destination_descendants@[j]
                < destination_tree.arena().len(),
    ensures
        final(mapping).wf(),
        final(mapping).fits(source_tree.arena().len(), destination_tree.arena().len()),
        keeps_links(*old(mapping), *final(mapping)),
        new_links_recovered(
            source_tree.arena(),
            destination_tree.arena(),
            source_descendants@,
            destination_descendants@,
            *old(mapping),
            *final(mapping),
        ),
        forall|s: usize| #[trigger]
            final(mapping).fwd().contains_key(s) && !old(mapping).fwd().contains_key(s) ==> lone_leaf_pair(
                source_tree.arena(),
                destination_tree.arena(),
                source_descendants@,
                destination_descendants@,
                *old(mapping),
                s,
                final(mapping).fwd()[s],
            ),
        forall|s: usize, d: usize|
            #[trigger] lone_leaf_pair(
                source_tree.arena(),
                destination_tree.arena(),
                source_descendants@,
                destination_descendants@,
                *old(mapping),
                s,
                d,
            ) ==> final(mapping).fwd().contains_key(s) && final(mapping).fwd()[s] == d,
{
    let ghost t1 = source_tree.arena();
    let ghost t2 = destination_tree.arena();
    let ghost start = *mapping;
    let ghost sids = source_descendants@;
    let ghost dids = destination_descendants@;
    let source_length = source_descendants.len();
    let destination_length = destination_descendants.len();

    // Which nodes were unmapped leaves when the step began.
    let mut source_open: Vec<bool> = Vec::with_capacity(source_length);
    let mut i: usize = 0;
    while i < source_length
        invariant
            source_tree.wf(),
            t1 == source_tree.arena(),
            *mapping == start,
            source_length == source_descendants@.len(),
            forall|j: int| 0 <= j < source_descendants@.len() ==> #[trigger] source_descendants@[j] < t1.len(),
            i <= source_length,
            source_open@.len() == i,
            forall|q: int|
                0 <= q < i ==> #[trigger] source_open@[q] == (!start.fwd().contains_key(source_descendants@[q])
                    && t1[source_descendants@[q] as int].children@.len() == 0),
        decreases source_length - i,
    {
        let id = source_descendants[i];
        source_open.push(!mapping.has_src(id) && source_tree.node(id).children.len() == 0);
        i += 1;
    }
    let mut destination_open: Vec<bool> = Vec::with_capacity(destination_length);
    let mut i: usize = 0;
    while i < destination_length
        invariant
            destination_tree.wf(),
            t2 == destination_tree.arena(),
            *mapping == start,
            destination_length == destination_descendants@.len(),
            forall|j: int|
                0 <= j < destination_descendants@.len() ==> #[trigger] destination_descendants@[j] < t2.len(),
            i <= destination_length,
            destination_open@.len() == i,
            forall|q: int|
                0 <= q < i ==> #[trigger] destination_open@[q] == (!start.bwd().contains_key(
                    destination_descendants@[q],
                ) && t2[destination_descendants@[q] as int].children@.len() == 0),
        decreases destination_length - i,
    {
        let id = destination_descendants[i];
        destination_open.push(!mapping.has_dst(id) && destination_tree.node(id).children.len() == 0);
        i += 1;
    }

    let mut i: usize = 0;
    while i < source_length
        invariant
            source_tree.wf(),
            destination_tree.wf(),
            t1 == source_tree.arena(),
            t2 == destination_tree.arena(),
            sids == source_descendants@,
            dids == destination_descendants@,
            source_length == source_descendants@.len(),
            destination_length == destination_descendants@.len(),
            forall|j: int| 0 <= j < source_descendants@.len() ==> #[trigger] source_descendants@[j] < t1.len(),
            forall|j: int|
                0 <= j < destination_descendants@.len() ==> #[trigger] destination_descendants@[j] < t2.len(),
            source_open@.len() == source_length,
            destination_open@.len() == destination_length,
            forall|q: int|
                0 <= q < source_length ==> #[trigger] source_open@[q] == (!start.fwd().contains_key(sids[q])
                    && t1[sids[q] as int].children@.len() == 0),
            forall|q: int|
                0 <= q < destination_length ==> #[trigger] destination_open@[q] == (!start.bwd().contains_key(
                    dids[q],
                ) && t2[dids[q] as int].children@.len() == 0),
            start.wf(),
            mapping.wf(),
            mapping.fits(t1.len(), t2.len()),
            keeps_links(start, *mapping),
            new_links_recovered(t1, t2, source_descendants@, destination_descendants@, start, *mapping),
            forall|s: usize| #[trigger]
                mapping.fwd().contains_key(s) && !start.fwd().contains_key(s) ==> lone_leaf_pair(
                    t1,
                    t2,
                    sids,
                    dids,
                    start,
                    s,
                    mapping.fwd()[s],
                ),
            forall|q: int, d: usize|
                0 <= q < i && #[trigger] lone_leaf_pair(t1, t2, sids, dids, start, sids[q], d)
                    ==> mapping.fwd().contains_key(sids[q]) && mapping.fwd()[sids[q]] == d,
            i <= source_length,
        decreases source_length - i,
    {
        let source_id = source_descendants[i];
        proof {
            assert(source_descendants@.contains(source_id)) by {
                assert(source_descendants@[i as int] == source_id);
            }
        }
        let ghost q0 = i as int;
        let ghost kind = t1[source_id as int].kind@;
        let ghost label = t1[source_id as int].label@;
        let ghost fs = open_leaves_with(t1, sids, start.fwd(), kind, label);
        let ghost fd = open_leaves_with(t2, dids, start.bwd(), kind, label);
        i += 1;
        if mapping.has_src(source_id) {
            proof {
                assert forall|d: usize| #[trigger] lone_leaf_pair(t1, t2, sids, dids, start, source_id, d) implies mapping.fwd().contains_key(source_id)
                    && mapping.fwd()[source_id] == d by {
                    broadcast use vstd::seq_lib::group_filter_ensures;

                    if start.fwd().contains_key(source_id) {
                        assert(fs[0] == source_id);
                        assert(open_leaf_with(t1, start.fwd(), kind, label)(fs[0]));
                    } else {
                        lemma_lone_pair_unique(t1, t2, sids, dids, start, source_id, d, source_id, mapping.fwd()[source_id]);
                    }
                }
            }
            continue;
        }
        let source = source_tree.node(source_id);
        if source.children.len() != 0 {
            proof {
                assert forall|d: usize| #[trigger] lone_leaf_pair(t1, t2, sids, dids, start, source_id, d) implies mapping.fwd().contains_key(source_id)
                    && mapping.fwd()[source_id] == d by {
                    broadcast use vstd::seq_lib::group_filter_ensures;

                    assert(fs[0] == source_id);
                    assert(open_leaf_with(t1, start.fwd(), kind, label)(fs[0]));
                }
            }
            continue;
        }
        // How many unmapped source leaves share this (kind, label).
        let mut source_count: usize = 0;
        let mut j: usize = 0;
        proof {
            super::lemma_filter_take_none(sids, open_leaf_with(t1, start.fwd(), kind, label));
        }
        while j < source_length
            invariant
                source_tree.wf(),
                t1 == source_tree.arena(),
                sids == source_descendants@,
                source_length == source_descendants@.len(),
                forall|q: int| 0 <= q < source_descendants@.len() ==> #[trigger] source_descendants@[q] < t1.len(),
                source_open@.len() == source_length,
                forall|q: int|
                    0 <= q < source_length ==> #[trigger] source_open@[q] == (!start.fwd().contains_key(sids[q])
                        && t1[sids[q] as int].children@.len() == 0),
                source_id < t1.len(),
                *source == t1[source_id as int],
                kind == t1[source_id as int].kind@,
                label == t1[source_id as int].label@,
                j <= source_length,
                source_count <= j,
                source_count == open_leaves_with(t1, sids.take(j as int), start.fwd(), kind, label).len(),
            decreases source_length - j,
        {
            proof {
                super::lemma_filter_take_step(sids, open_leaf_with(t1, start.fwd(), kind, label), j as int);
            }
            if source_open[j] {
                let other = source_tree.node(source_descendants[j]);
                if other.kind == source.kind && other.label == source.label {
                    source_count += 1;
                }
            }
            j += 1;
        }
        proof {
            assert(sids.take(source_length as int) =~= sids);
        }
        // The unmapped destination leaves with this (kind, label).
        let mut bucket_length: usize = 0;
        let mut last: usize = 0;
        let mut j: usize = 0;
        proof {
            super::lemma_filter_take_none(dids, open_leaf_with(t2, start.bwd(), kind, label));
        }
        while j < destination_length
            invariant
                source_tree.wf(),
                destination_tree.wf(),
                t1 == source_tree.arena(),
                t2 == destination_tree.arena(),
                dids == destination_descendants@,
                source_id < t1.len(),
                *source == t1[source_id as int],
                kind == t1[source_id as int].kind@,
                label == t1[source_id as int].label@,
                destination_length == destination_descendants@.len(),
                forall|q: int|
                    0 <= q < destination_descendants@.len() ==> #[trigger] destination_descendants@[q] < t2.len(),
                destination_open@.len() == destination_length,
                forall|q: int|
                    0 <= q < destination_length ==> #[trigger] destination_open@[q] == (!start.bwd().contains_key(
                        dids[q],
                    ) && t2[dids[q] as int].children@.len() == 0),
                j <= destination_length,
                bucket_length <= j,
                bucket_length == open_leaves_with(t2, dids.take(j as int), start.bwd(), kind, label).len(),
                bucket_length > 0 ==> last == open_leaves_with(t2, dids.take(j as int), start.bwd(), kind, label).last(),
                bucket_length > 0 ==> last < t2.len() && t2[last as int].kind@ == t1[source_id as int].kind@
                    && t2[last as int].label@ == t1[source_id as int].label@,
                bucket_length > 0 ==> dids.contains(last),
            decreases destination_length - j,
        {
            proof {
                super::lemma_filter_take_step(dids, open_leaf_with(t2, start.bwd(), kind, label), j as int);
            }
            if destination_open[j] {
                let other_id = destination_descendants[j];
                let other = destination_tree.node(other_id);
                if other.kind == source.kind && other.label == source.label {
                    bucket_length += 1;
                    last = other_id;
                    proof {
                        assert(dids[j as int] == last);
                    }
                }
            }
            j += 1;
        }
        proof {
            assert(dids.take(destination_length as int) =~= dids);
        }
        if bucket_length == 1 && source_count == 1 {
            let ghost before = *mapping;
            proof {
                broadcast use vstd::seq_lib::group_filter_ensures;

                assert(open_leaf_with(t1, start.fwd(), kind, label)(sids[q0]));
                assert(fs.contains(source_id));
                assert(fs =~= seq![source_id]);
                assert(fd =~= seq![last]);
                assert(lone_leaf_pair(t1, t2, sids, dids, start, source_id, last));
                assert(open_leaf_with(t2, start.bwd(), kind, label)(fd[0]));
                if mapping.bwd().contains_key(last) {
                    let s2 = mapping.bwd()[last];
                    assert(mapping.fwd().contains_key(s2) && mapping.fwd()[s2] == last);
                    assert(!start.fwd().contains_key(s2)) by {
                        if start.fwd().contains_key(s2) {
                            assert(start.fwd()[s2] == last);
                            assert(start.bwd().contains_key(start.fwd()[s2]));
                            assert(fd[0] == last);
                        }
                    }
                    lemma_lone_pair_unique(t1, t2, sids, dids, start, source_id, last, s2, last);
                }
            }
            mapping.link(source_id, last);
            proof {
                lemma_keeps_links_trans(start, before, *mapping);
                assert(t1[source_id as int].label@ == t2[last as int].label@);
                assert(new_links_recovered(t1, t2, source_descendants@, destination_descendants@, before, *mapping));
                lemma_recovered_trans(t1, t2, source_descendants@, destination_descendants@, start, before, *mapping);
                assert forall|d: usize| #[trigger] lone_leaf_pair(t1, t2, sids, dids, start, source_id, d) implies mapping.fwd().contains_key(source_id)
                    && mapping.fwd()[source_id] == d by {
                    lemma_lone_pair_unique(t1, t2, sids, dids, start, source_id, d, source_id, last);
                }
            }
        } else {
            proof {
                assert forall|d: usize| #[trigger] lone_leaf_pair(t1, t2, sids, dids, start, source_id, d) implies mapping.fwd().contains_key(source_id)
                    && mapping.fwd()[source_id] == d by {
                    assert(fs.len() == 1);
                    assert(open_leaves_with(t2, dids, start.bwd(), kind, label).len() == 1);
                    assert(fd =~= seq![d]);
                }
            }
        }
    }
    proof {
        assert forall|s: usize, d: usize| #[trigger] lone_leaf_pair(t1, t2, sids, dids, start, s, d) implies mapping.fwd().contains_key(s)
            && mapping.fwd()[s] == d by {
            broadcast use vstd::seq_lib::group_filter_ensures;

            let e = open_leaves_with(t1, sids, start.fwd(), t1[s as int].kind@, t1[s as int].label@);
            assert(e[0] == s);
            assert(e.contains(s));
            sids.lemma_filter_contains_rev(open_leaf_with(t1, start.fwd(), t1[s as int].kind@, t1[s as int].label@), s);
            let q = choose|q: int| 0 <= q < sids.len() && sids[q] == s;
            assert(lone_leaf_pair(t1, t2, sids, dids, start, sids[q], d));
        }
    }
}

/// The Dice similarity of `s` and `d` under `m` is zero: no descendant of
/// `s` is mapped strictly below `d`, or neither has descendants.
pub open spec fn zero_dice(t1: Seq<Node>, t2: Seq<Node>, m: Mapping, s: usize, d: usize) -> bool {
    dice_spec(preorder(kids(t1), s as int).drop_first(), t2, m.fwd(), d as int).0 == 0
}

/// Every destination entry that was an unmapped inner node with the kind
/// and label of `s` when the step began is taken in `new`, or had a Dice
/// similarity of zero with `s` then: the inner step left `s` no candidate.
pub open spec fn no_inner_candidate(
    t1: Seq<Node>,
    t2: Seq<Node>,
    destinations: Seq<usize>,
    old: Mapping,
    new: Mapping,
    s: usize,
) -> bool {
    forall|k: int|
        0 <= k < destinations.len() && !old.bwd().contains_key(#[trigger] destinations[k])
            && t2[destinations[k] as int].children@.len() > 0 && t2[destinations[k] as int].kind@ == t1[s as int].kind@
            && t2[destinations[k] as int].label@ == t1[s as int].label@ ==> new.bwd().contains_key(destinations[k])
            || zero_dice(t1, t2, old, s, destinations[k])
}

/// `d` is a candidate the inner step may pick for `s`: an inner
/// destination entry free under `old` with the kind and label of the inner
/// node `s`, with which `s` has a Dice similarity above zero under `m`.
pub open spec fn inner_pick(
    t1: Seq<Node>,
    t2: Seq<Node>,
    destinations: Seq<usize>,
    old: Mapping,
    m: Mapping,
    s: usize,
    d: usize,
) -> bool {
    &&& destinations.contains(d)
    &&& !old.bwd().contains_key(d)
    &&& t1[s as int].children@.len() > 0
    &&& t2[d as int].children@.len() > 0
    &&& t2[d as int].kind@ == t1[s as int].kind@
    &&& t2[d as int].label@ == t1[s as int].label@
    &&& !zero_dice(t1, t2, m, s, d)
    &&& forall|k: int|
        0 <= k < destinations.len() && !old.bwd().contains_key(#[trigger] destinations[k]) && t2[destinations[k] as int].children@.len()
            > 0 && t2[destinations[k] as int].kind@ == t1[s as int].kind@ && t2[destinations[k] as int].label@
            == t1[s as int].label@ && !m.bwd().contains_key(destinations[k]) ==> frac_ge(
            inner_dice(t1, t2, m, s, d),
            inner_dice(t1, t2, old, s, destinations[k]),
        )
}

/// The Dice similarity of `s` and `d` under `m`, as a fraction.
pub open spec fn inner_dice(t1: Seq<Node>, t2: Seq<Node>, m: Mapping, s: usize, d: usize) -> (nat, nat) {
    dice_spec(preorder(kids(t1), s as int).drop_first(), t2, m.fwd(), d as int)
}

/// Links kept can only raise a Dice similarity.
proof fn lemma_inner_dice_mono(t1: Seq<Node>, t2: Seq<Node>, m1: Mapping, m2: Mapping, s: usize, c: usize)
    requires
        keeps_links(m1, m2),
    ensures
        frac_ge(inner_dice(t1, t2, m2, s, c), inner_dice(t1, t2, m1, s, c)),
        inner_dice(t1, t2, m1, s, c).1 > 0,
        inner_dice(t1, t2, m2, s, c).1 > 0,
{
    let src = preorder(kids(t1), s as int).drop_first();
    let a = inner_dice(t1, t2, m1, s, c);
    let b = inner_dice(t1, t2, m2, s, c);
    lemma_common_count_grows(src, m1, m2, parents(t2), c as int);
    super::lemma_dice_denominator(src, t2, m1.fwd(), c as int);
    super::lemma_dice_denominator(src, t2, m2.fwd(), c as int);
    assert(b.0 * a.1 >= a.0 * b.1) by (nonlinear_arith)
        requires
            a.0 <= b.0,
            a.1 == b.1,
    ;
}

/// Links kept keep a similarity above zero.
proof fn lemma_dice_stays_above_zero(t1: Seq<Node>, t2: Seq<Node>, m1: Mapping, m2: Mapping, s: usize, d: usize)
    requires
        keeps_links(m1, m2),
        !zero_dice(t1, t2, m1, s, d),
    ensures
        !zero_dice(t1, t2, m2, s, d),
{
    lemma_common_count_grows(preorder(kids(t1), s as int).drop_first(), m1, m2, parents(t2), d as int);
}

/// Links kept keep every pick of the inner step a pick.
proof fn lemma_inner_picks_kept(
    t1: Seq<Node>,
    t2: Seq<Node>,
    destinations: Seq<usize>,
    start: Mapping,
    before: Mapping,
    after: Mapping,
    s0: usize,
)
    requires
        before.wf(),
        after.wf(),
        keeps_links(before, after),
        forall|s: usize| #[trigger]
            before.fwd().contains_key(s) && !start.fwd().contains_key(s) ==> inner_pick(
                t1,
                t2,
                destinations,
                start,
                before,
                s,
                before.fwd()[s],
            ),
        forall|s: usize| #[trigger] after.fwd().contains_key(s) && !before.fwd().contains_key(s) ==> s == s0,
        after.fwd().contains_key(s0) && !before.fwd().contains_key(s0) ==> inner_pick(
            t1,
            t2,
            destinations,
            start,
            before,
            s0,
            after.fwd()[s0],
        ),
    ensures
        forall|s: usize| #[trigger]
            after.fwd().contains_key(s) && !start.fwd().contains_key(s) ==> inner_pick(
                t1,
                t2,
                destinations,
                start,
                after,
                s,
                after.fwd()[s],
            ),
{
    assert forall|s: usize| #[trigger] after.fwd().contains_key(s) && !start.fwd().contains_key(s) implies inner_pick(
        t1,
        t2,
        destinations,
        start,
        after,
        s,
        after.fwd()[s],
    ) by {
        let d = after.fwd()[s];
        if before.fwd().contains_key(s) {
            lemma_dice_stays_above_zero(t1, t2, before, after, s, before.fwd()[s]);
        } else {
            lemma_dice_stays_above_zero(t1, t2, before, after, s, after.fwd()[s]);
        }
        assert(inner_pick(t1, t2, destinations, start, before, s, d));
        lemma_inner_dice_mono(t1, t2, before, after, s, d);
        assert forall|k: int|
            0 <= k < destinations.len() && !start.bwd().contains_key(#[trigger] destinations[k])
                && t2[destinations[k] as int].children@.len() > 0 && t2[destinations[k] as int].kind@ == t1[s as int].kind@
                && t2[destinations[k] as int].label@ == t1[s as int].label@ && !after.bwd().contains_key(destinations[k])
                implies frac_ge(inner_dice(t1, t2, after, s, d), inner_dice(t1, t2, start, s, destinations[k])) by {
            if before.bwd().contains_key(destinations[k]) {
                lemma_taken_kept(before, after, destinations[k]);
            }
            lemma_inner_dice_mono(t1, t2, start, start, s, destinations[k]);
            super::lemma_frac_ge_trans(
                inner_dice(t1, t2, after, s, d),
                inner_dice(t1, t2, before, s, d),
                inner_dice(t1, t2, start, s, destinations[k]),
            );
        }
    }
}

/// Links kept keep every count of shared descendants.
proof fn lemma_common_count_grows(src: Seq<usize>, m1: Mapping, m2: Mapping, par2: Seq<Option<usize>>, d: int)
    requires
        keeps_links(m1, m2),
    ensures
        common_count(src, m1.fwd(), par2, d) <= common_count(src, m2.fwd(), par2, d),
    decreases src.len(),
{
    if src.len() > 0 {
        lemma_common_count_grows(src.drop_last(), m1, m2, par2, d);
        if m1.fwd().contains_key(src.last()) {
            assert(m2.fwd().contains_key(src.last()));
        }
    }
}

/// A destination taken stays taken, so what the inner step left holds on.
proof fn lemma_no_candidate_kept_one(
    t1: Seq<Node>,
    t2: Seq<Node>,
    destinations: Seq<usize>,
    start: Mapping,
    before: Mapping,
    after: Mapping,
    s: usize,
)
    requires
        before.wf(),
        after.wf(),
        keeps_links(before, after),
        no_inner_candidate(t1, t2, destinations, start, before, s),
    ensures
        no_inner_candidate(t1, t2, destinations, start, after, s),
{
    assert forall|k: int|
        0 <= k < destinations.len() && !start.bwd().contains_key(#[trigger] destinations[k])
            && t2[destinations[k] as int].children@.len() > 0 && t2[destinations[k] as int].kind@ == t1[s as int].kind@
            && t2[destinations[k] as int].label@ == t1[s as int].label@ implies after.bwd().contains_key(destinations[k])
        || zero_dice(t1, t2, start, s, destinations[k]) by {
        if before.bwd().contains_key(destinations[k]) {
            lemma_taken_kept(before, after, destinations[k]);
        }
    }
}

/// A link made for entry `i - 1` keeps what the earlier entries had.
proof fn lemma_no_candidate_kept(
    t1: Seq<Node>,
    t2: Seq<Node>,
    destinations: Seq<usize>,
    start: Mapping,
    before: Mapping,
    after: Mapping,
    sids: Seq<usize>,
    i: int,
)
    requires
        before.wf(),
        after.wf(),
        keeps_links(before, after),
        0 <= i <= sids.len(),
        forall|q: int|
            0 <= q < i ==> (!before.fwd().contains_key(#[trigger] sids[q]) && t1[sids[q] as int].children@.len() > 0
                ==> no_inner_candidate(t1, t2, destinations, start, before, sids[q])),
    ensures
        forall|q: int|
            0 <= q < i ==> (!after.fwd().contains_key(#[trigger] sids[q]) && t1[sids[q] as int].children@.len() > 0
                ==> no_inner_candidate(t1, t2, destinations, start, after, sids[q])),
{
    assert forall|q: int|
        0 <= q < i && !after.fwd().contains_key(#[trigger] sids[q]) && t1[sids[q] as int].children@.len()
            > 0 implies no_inner_candidate(t1, t2, destinations, start, after, sids[q]) by {
        assert(!before.fwd().contains_key(sids[q]));
        lemma_no_candidate_kept_one(t1, t2, destinations, start, before, after, sids[q]);
    }
}

/// Phase 1b: match non-leaf nodes by (kind, label). When multiple
/// candidates share the same key, pick the one with the highest Dice
/// similarity (which reflects how many of their descendants are already
/// matched from Phase 1a).
fn recover_inner_nodes(
    source_tree: &Tree,
    destination_tree: &Tree,
    source_descendants: &Vec<NodeId>,
    destination_descendants: &Vec<NodeId>,
    mapping: &mut Mapping,
)
    requires
        source_tree.wf(),
        destination_tree.wf(),
        old(mapping).wf(),
        old(mapping).fits(source_tree.arena().len(), destination_tree.arena().len()),
        source_tree.arena().len() + destination_tree.arena().len() <= usize::MAX / 2,
        forall|j: int|
            0 <= j < source_descendants@.len() ==> #[trigger] source_descendants@[j]
                < source_tree.arena().len(),
        forall|j: int|
            0 <= j < destination_descendants@.len() ==> #[trigger] destination_descendants@[j]
                < destination_tree.arena().len() && in_subtree(
                parents(destination_tree.arena()),
                destination_tree.root_id(),
                destination_descendants@[j] as int,
            ),
    ensures
        final(mapping).wf(),
        final(mapping).fits(source_tree.arena().len(), destination_tree.arena().len()),
        keeps_links(*old(mapping), *final(mapping)),
        new_links_recovered(
            source_tree.arena(),
            destination_tree.arena(),
            source_descendants@,
            destination_descendants@,
            *old(mapping),
            *final(mapping),
        ),
        forall|q: int|
            0 <= q < source_descendants@.len() ==> (!final(mapping).fwd().contains_key(
                #[trigger] source_descendants@[q],
            ) && source_tree.arena()[source_descendants@[q] as int].children@.len() > 0 ==> no_inner_candidate(
                source_tree.arena(),
                destination_tree.arena(),
                destination_descendants@,
                *old(mapping),
                *final(mapping),
                source_descendants@[q],
            )),
        forall|s: usize| #[trigger]
            final(mapping).fwd().contains_key(s) && !old(mapping).fwd().contains_key(s) ==> inner_pick(
                source_tree.arena(),
                destination_tree.arena(),
                destination_descendants@,
                *old(mapping),
                *final(mapping),
                s,
                final(mapping).fwd()[s],
            ),
{
    let ghost t1 = source_tree.arena();
    let ghost t2 = destination_tree.arena();
    let ghost start = *mapping;
    let ghost sids = source_descendants@;
    let ghost dids = destination_descendants@;
    let source_length = source_descendants.len();
    let destination_length = destination_descendants.len();

    // Which destination nodes were unmapped inner nodes when the step began;
    // they stay candidates until they get linked here.
    let mut destination_open: Vec<bool> = Vec::with_capacity(destination_length);
    let mut i: usize = 0;
    while i < destination_length
        invariant
            destination_tree.wf(),
            t2 == destination_tree.arena(),
            destination_length == destination_descendants@.len(),
            forall|j: int|
                0 <= j < destination_descendants@.len() ==> #[trigger] destination_descendants@[j] < t2.len(),
            i <= destination_length,
            destination_open@.len() == i,
            *mapping == start,
            forall|q: int|
                0 <= q < i ==> #[trigger] destination_open@[q] == (!start.bwd().contains_key(
                    destination_descendants@[q],
                ) && t2[destination_descendants@[q] as int].children@.len() > 0),
        decreases destination_length - i,
    {
        let id = destination_descendants[i];
        destination_open.push(!mapping.has_dst(id) && destination_tree.node(id).children.len() != 0);
        i += 1;
    }

    let mut i: usize = 0;
    while i < source_length
        invariant
            source_tree.wf(),
            destination_tree.wf(),
            forall|q: int|
                0 <= q < destination_descendants@.len() ==> in_subtree(
                    parents(destination_tree.arena()),
                    destination_tree.root_id(),
                    #[trigger] destination_descendants@[q] as int,
                ),
            t1 == source_tree.arena(),
            t2 == destination_tree.arena(),
            t1.len() + t2.len() <= usize::MAX / 2,
            source_length == source_descendants@.len(),
            destination_length == destination_descendants@.len(),
            forall|j: int| 0 <= j < source_descendants@.len() ==> #[trigger] source_descendants@[j] < t1.len(),
            forall|j: int|
                0 <= j < destination_descendants@.len() ==> #[trigger] destination_descendants@[j] < t2.len(),
            destination_open@.len() == destination_length,
            mapping.wf(),
            mapping.fits(t1.len(), t2.len()),
            keeps_links(start, *mapping),
            new_links_recovered(t1, t2, source_descendants@, destination_descendants@, start, *mapping),
            i <= source_length,
            sids == source_descendants@,
            dids == destination_descendants@,
            forall|q: int|
                0 <= q < destination_length ==> #[trigger] destination_open@[q] == (!start.bwd().contains_key(
                    dids[q],
                ) && t2[dids[q] as int].children@.len() > 0),
            forall|q: int|
                0 <= q < i ==> (!mapping.fwd().contains_key(#[trigger] sids[q]) && t1[sids[q] as int].children@.len()
                    > 0 ==> no_inner_candidate(t1, t2, dids, start, *mapping, sids[q])),
            forall|s: usize| #[trigger]
                mapping.fwd().contains_key(s) && !start.fwd().contains_key(s) ==> inner_pick(
                    t1,
                    t2,
                    dids,
                    start,
                    *mapping,
                    s,
                    mapping.fwd()[s],
                ),
        decreases source_length - i,
    {
        let source_id = source_descendants[i];
        proof {
            assert(source_descendants@.contains(source_id)) by {
                assert(source_descendants@[i as int] == source_id);
            }
        }
        let ghost q0 = i as int;
        i += 1;
        if mapping.has_src(source_id) {
            continue;
        }
        let source = source_tree.node(source_id);
        if source.children.len() == 0 {
            continue;
        }
        // Collect source descendants once for all candidates of this key.
        let src_descs = source_tree.descendants(source_id);
        proof {
            lemma_subtree_size_bound(t1, source_id as int);
            lemma_fits_backward(*mapping, t1.len(), t2.len());
        }
        let mut best: Option<(NodeId, Ratio)> = None;
        let mut j: usize = 0;
        while j < destination_length
            invariant
                source_tree.wf(),
                destination_tree.wf(),
                forall|q: int|
                    0 <= q < destination_descendants@.len() ==> in_subtree(
                        parents(destination_tree.arena()),
                        destination_tree.root_id(),
                        #[trigger] destination_descendants@[q] as int,
                    ),
                t1 == source_tree.arena(),
                t2 == destination_tree.arena(),
                source_id < t1.len(),
                *source == t1[source_id as int],
                src_descs@.len() + t2.len() <= usize::MAX / 2,
                destination_length == destination_descendants@.len(),
                forall|q: int|
                    0 <= q < destination_descendants@.len() ==> #[trigger] destination_descendants@[q] < t2.len(),
                destination_open@.len() == destination_length,
                mapping.wf(),
                mapping.fits(t1.len(), t2.len()),
                j <= destination_length,
                match best {
                    Some((d, dice)) => d < t2.len() && t2[d as int].kind@ == t1[source_id as int].kind@
                        && t2[d as int].label@ == t1[source_id as int].label@ && dice.wf()
                        && !mapping.bwd().contains_key(d) && dids.contains(d) && !start.bwd().contains_key(d)
                        && t2[d as int].children@.len() > 0 && !zero_dice(t1, t2, *mapping, source_id, d)
                        && (dice.numerator as nat, dice.denominator as nat) == inner_dice(t1, t2, *mapping, source_id, d)
                        && forall|k: int|
                        0 <= k < j && #[trigger] destination_open@[k] && !mapping.bwd().contains_key(dids[k])
                            && t2[dids[k] as int].kind@ == t1[source_id as int].kind@ && t2[dids[k] as int].label@
                            == t1[source_id as int].label@ ==> frac_ge(
                            inner_dice(t1, t2, *mapping, source_id, d),
                            inner_dice(t1, t2, *mapping, source_id, dids[k]),
                        ),
                    None => forall|k: int|
                        0 <= k < j && #[trigger] destination_open@[k] && !mapping.bwd().contains_key(dids[k])
                            && t2[dids[k] as int].kind@ == t1[source_id as int].kind@ && t2[dids[k] as int].label@
                            == t1[source_id as int].label@ ==> zero_dice(t1, t2, *mapping, source_id, dids[k]),
                },
                dids == destination_descendants@,
                src_descs@ == preorder(kids(t1), source_id as int).drop_first(),
                forall|q: int|
                    0 <= q < destination_length ==> #[trigger] destination_open@[q] == (!start.bwd().contains_key(
                        dids[q],
                    ) && t2[dids[q] as int].children@.len() > 0),
            decreases destination_length - j,
        {
            let candidate = destination_descendants[j];
            if destination_open[j] && !mapping.has_dst(candidate) {
                let other = destination_tree.node(candidate);
                if other.kind == source.kind && other.label == source.label {
                    proof {
                        assert(in_subtree(parents(t2), destination_tree.root_id(), candidate as int));
                        lemma_fits_backward(*mapping, t1.len(), t2.len());
                    }
                    let dice = dice_with_source_descendants(
                        src_descs.as_slice(),
                        destination_tree,
                        candidate,
                        mapping,
                    );
                    let ghost here = inner_dice(t1, t2, *mapping, source_id, candidate);
                    proof {
                        assert(dids[j as int] == candidate);
                        lemma_inner_dice_mono(t1, t2, *mapping, *mapping, source_id, candidate);
                        if dice.numerator == 0 {
                            assert(zero_dice(t1, t2, *mapping, source_id, candidate));
                        }
                    }
                    if dice.numerator > 0 {
                        let replace = match best {
                            None => true,
                            Some((_, best_dice)) => dice.ge(&best_dice),
                        };
                        if replace {
                            proof {
                                assert(dids.contains(candidate));
                                assert(!zero_dice(t1, t2, *mapping, source_id, candidate));
                                assert forall|k: int|
                                    0 <= k < j + 1 && #[trigger] destination_open@[k] && !mapping.bwd().contains_key(dids[k])
                                        && t2[dids[k] as int].kind@ == t1[source_id as int].kind@ && t2[dids[k] as int].label@
                                        == t1[source_id as int].label@ implies frac_ge(
                                    here,
                                    inner_dice(t1, t2, *mapping, source_id, dids[k]),
                                ) by {
                                    let other = inner_dice(t1, t2, *mapping, source_id, dids[k]);
                                    lemma_inner_dice_mono(t1, t2, *mapping, *mapping, source_id, dids[k]);
                                    if k < j {
                                        match best {
                                            Some((b, _)) => {
                                                let bd = inner_dice(t1, t2, *mapping, source_id, b);
                                                lemma_inner_dice_mono(t1, t2, *mapping, *mapping, source_id, b);
                                                super::lemma_frac_ge_trans(here, bd, other);
                                            },
                                            None => {
                                                assert(zero_dice(t1, t2, *mapping, source_id, dids[k]));
                                            },
                                        }
                                    }
                                }
                            }
                            best = Some((candidate, dice));
                        } else {
                            proof {
                                let (b, _) = best.unwrap();
                                let bd = inner_dice(t1, t2, *mapping, source_id, b);
                                assert(bd.0 * here.1 >= here.0 * bd.1) by (nonlinear_arith)
                                    requires
                                        !(here.0 * bd.1 >= bd.0 * here.1),
                                ;
                            }
                        }
                    } else {
                        proof {
                            match best {
                                Some((b, _)) => {
                                    assert(here.0 == 0);
                                    let bd = inner_dice(t1, t2, *mapping, source_id, b);
                                    assert(bd.0 * here.1 >= here.0 * bd.1) by (nonlinear_arith)
                                        requires
                                            here.0 == 0,
                                    ;
                                },
                                None => {},
                            }
                        }
                    }
                }
            }
            j += 1;
        }
        if let Some((matched, _)) = best {
            let ghost before = *mapping;
            mapping.link(source_id, matched);
            proof {
                lemma_keeps_links_trans(start, before, *mapping);
                assert(new_links_recovered(t1, t2, source_descendants@, destination_descendants@, before, *mapping));
                lemma_recovered_trans(t1, t2, source_descendants@, destination_descendants@, start, before, *mapping);
                lemma_no_candidate_kept(t1, t2, dids, start, before, *mapping, sids, q0);
                assert(mapping.fwd().contains_key(sids[q0]));
                assert forall|k: int|
                    0 <= k < dids.len() && !start.bwd().contains_key(#[trigger] dids[k]) && t2[dids[k] as int].children@.len()
                        > 0 && t2[dids[k] as int].kind@ == t1[source_id as int].kind@ && t2[dids[k] as int].label@
                        == t1[source_id as int].label@ && !before.bwd().contains_key(dids[k]) implies frac_ge(
                    inner_dice(t1, t2, before, source_id, matched),
                    inner_dice(t1, t2, start, source_id, dids[k]),
                ) by {
                    assert(destination_open@[k]);
                    lemma_inner_dice_mono(t1, t2, start, before, source_id, dids[k]);
                    lemma_inner_dice_mono(t1, t2, before, before, source_id, matched);
                    super::lemma_frac_ge_trans(
                        inner_dice(t1, t2, before, source_id, matched),
                        inner_dice(t1, t2, before, source_id, dids[k]),
                        inner_dice(t1, t2, start, source_id, dids[k]),
                    );
                }
                assert(inner_pick(t1, t2, dids, start, before, source_id, matched));
                lemma_inner_picks_kept(t1, t2, dids, start, before, *mapping, source_id);
            }
        } else {
            proof {
                assert forall|k: int|
                    0 <= k < dids.len() && !start.bwd().contains_key(#[trigger] dids[k])
                        && t2[dids[k] as int].children@.len() > 0 && t2[dids[k] as int].kind@ == t1[source_id as int].kind@
                        && t2[dids[k] as int].label@ == t1[source_id as int].label@ implies mapping.bwd().contains_key(
                    dids[k],
                ) || zero_dice(t1, t2, start, source_id, dids[k]) by {
                    assert(destination_open@[k]);
                    if !mapping.bwd().contains_key(dids[k]) {
                        assert(zero_dice(t1, t2, *mapping, source_id, dids[k]));
                        lemma_common_count_grows(
                            preorder(kids(t1), source_id as int).drop_first(),
                            start,
                            *mapping,
                            parents(t2),
                            dids[k] as int,
                        );
                    }
                }
                assert(no_inner_candidate(t1, t2, dids, start, *mapping, sids[q0]));
            }
        }
    }
}

/// Every child of the image of `s`'s parent (under `old`) that has `s`'s
/// kind is taken in `new`: the parent step found no free place for `s`.
pub open spec fn siblings_taken(t1: Seq<Node>, t2: Seq<Node>, old: Mapping, new: Mapping, s: usize) -> bool {
    match t1[s as int].parent {
        Some(p) => old.fwd().contains_key(p) ==> {
            let siblings = t2[old.fwd()[p] as int].children@;
            forall|k: int|
                0 <= k < siblings.len() && t2[#[trigger] siblings[k] as int].kind@ == t1[s as int].kind@
                    ==> new.bwd().contains_key(siblings[k])
        },
        None => true,
    }
}

/// A destination taken stays taken while links are kept.
proof fn lemma_taken_kept(old: Mapping, new: Mapping, d: usize)
    requires
        old.wf(),
        new.wf(),
        keeps_links(old, new),
        old.bwd().contains_key(d),
    ensures
        new.bwd().contains_key(d),
{
    let s = old.bwd()[d];
    assert(old.fwd().contains_key(s) && old.fwd()[s] == d);
    assert(new.fwd().contains_key(s) && new.fwd()[s] == d);
}

/// `d` is the child of the image (under `m`) of `s`'s parent that the
/// parent step picks for `s`: the child at `s`'s own position, or else the
/// first child of `s`'s kind not taken, the one at `s`'s position being
/// taken, of another kind, or missing.
pub open spec fn parent_pick(t1: Seq<Node>, t2: Seq<Node>, m: Mapping, s: usize, d: usize) -> bool {
    match t1[s as int].parent {
        Some(p) => m.fwd().contains_key(p) && exists|slot: int, k: int|
            #![trigger t1[p as int].children@[slot], t2[m.fwd()[p] as int].children@[k]]
            {
                let siblings = t2[m.fwd()[p] as int].children@;
                &&& 0 <= slot < t1[p as int].children@.len()
                &&& t1[p as int].children@[slot] == s
                &&& 0 <= k < siblings.len()
                &&& siblings[k] == d
                &&& t2[d as int].kind@ == t1[s as int].kind@
                &&& (k == slot || {
                    &&& (slot >= siblings.len() || m.bwd().contains_key(siblings[slot])
                        || t2[siblings[slot] as int].kind@ != t1[s as int].kind@)
                    &&& forall|k2: int|
                        0 <= k2 < k && t2[#[trigger] siblings[k2] as int].kind@ == t1[s as int].kind@
                            ==> m.bwd().contains_key(siblings[k2])
                })
            },
        None => false,
    }
}

/// After the link of `s`, every link this step made, `s`'s among them, is
/// a pick, given that `s`'s is one.
proof fn lemma_picks_kept(t1: Seq<Node>, t2: Seq<Node>, start: Mapping, before: Mapping, after: Mapping, s0: usize)
    requires
        before.wf(),
        after.wf(),
        keeps_links(before, after),
        forall|s: usize| #[trigger]
            before.fwd().contains_key(s) && !start.fwd().contains_key(s) ==> parent_pick(
                t1,
                t2,
                before,
                s,
                before.fwd()[s],
            ),
        forall|s: usize| #[trigger] after.fwd().contains_key(s) && !before.fwd().contains_key(s) ==> s == s0,
        after.fwd().contains_key(s0) ==> parent_pick(t1, t2, after, s0, after.fwd()[s0]),
    ensures
        forall|s: usize| #[trigger]
            after.fwd().contains_key(s) && !start.fwd().contains_key(s) ==> parent_pick(
                t1,
                t2,
                after,
                s,
                after.fwd()[s],
            ),
{
    assert forall|s: usize| #[trigger] after.fwd().contains_key(s) && !start.fwd().contains_key(s) implies parent_pick(
        t1,
        t2,
        after,
        s,
        after.fwd()[s],
    ) by {
        if before.fwd().contains_key(s) {
            lemma_parent_pick_kept(t1, t2, before, after, s, before.fwd()[s]);
        }
    }
}

/// A pick stays a pick while links are kept.
proof fn lemma_parent_pick_kept(t1: Seq<Node>, t2: Seq<Node>, before: Mapping, after: Mapping, s: usize, d: usize)
    requires
        before.wf(),
        after.wf(),
        keeps_links(before, after),
        parent_pick(t1, t2, before, s, d),
    ensures
        parent_pick(t1, t2, after, s, d),
{
    let p = t1[s as int].parent.unwrap();
    assert(after.fwd().contains_key(p) && after.fwd()[p] == before.fwd()[p]);
    let siblings = t2[before.fwd()[p] as int].children@;
    let (slot, k) = choose|slot: int, k: int|
        #![trigger t1[p as int].children@[slot], t2[before.fwd()[p] as int].children@[k]]
        {
            &&& 0 <= slot < t1[p as int].children@.len()
            &&& t1[p as int].children@[slot] == s
            &&& 0 <= k < siblings.len()
            &&& siblings[k] == d
            &&& t2[d as int].kind@ == t1[s as int].kind@
            &&& (k == slot || {
                &&& (slot >= siblings.len() || before.bwd().contains_key(siblings[slot])
                    || t2[siblings[slot] as int].kind@ != t1[s as int].kind@)
                &&& forall|k2: int|
                    0 <= k2 < k && t2[#[trigger] siblings[k2] as int].kind@ == t1[s as int].kind@
                        ==> before.bwd().contains_key(siblings[k2])
            })
        };
    if k != slot {
        if slot < siblings.len() && before.bwd().contains_key(siblings[slot]) {
            lemma_taken_kept(before, after, siblings[slot]);
        }
        assert forall|k2: int|
            0 <= k2 < k && t2[#[trigger] siblings[k2] as int].kind@ == t1[s as int].kind@ implies after.bwd().contains_key(
            siblings[k2],
        ) by {
            lemma_taken_kept(before, after, siblings[k2]);
        }
    }
    assert(t1[p as int].children@[slot] == s && t2[after.fwd()[p] as int].children@[k] == d);
}

/// A link made for entry `i - 1` keeps what the earlier entries had.
proof fn lemma_siblings_still_taken(
    t1: Seq<Node>,
    t2: Seq<Node>,
    start: Mapping,
    before: Mapping,
    after: Mapping,
    sids: Seq<usize>,
    i: int,
)
    requires
        start.wf(),
        before.wf(),
        after.wf(),
        keeps_links(before, after),
        0 < i <= sids.len(),
        after.fwd().contains_key(sids[i - 1]),
        forall|q: int|
            0 <= q < i - 1 ==> (!before.fwd().contains_key(#[trigger] sids[q]) ==> siblings_taken(
                t1,
                t2,
                start,
                before,
                sids[q],
            )),
    ensures
        forall|q: int|
            0 <= q < i ==> (!after.fwd().contains_key(#[trigger] sids[q]) ==> siblings_taken(
                t1,
                t2,
                start,
                after,
                sids[q],
            )),
{
    assert forall|q: int| 0 <= q < i && !after.fwd().contains_key(#[trigger] sids[q]) implies siblings_taken(
        t1,
        t2,
        start,
        after,
        sids[q],
    ) by {
        let s = sids[q];
        assert(q < i - 1);
        assert(!before.fwd().contains_key(s));
        match t1[s as int].parent {
            Some(p) => {
                if start.fwd().contains_key(p) {
                    let siblings = t2[start.fwd()[p] as int].children@;
                    assert forall|k: int|
                        0 <= k < siblings.len() && t2[#[trigger] siblings[k] as int].kind@ == t1[s as int].kind@
                            implies after.bwd().contains_key(siblings[k]) by {
                        lemma_taken_kept(before, after, siblings[k]);
                    }
                }
            },
            None => {},
        }
    }
}

/// Phase 2: among still-unmapped, match by parent correspondence + kind.
/// This catches leaves whose label changed (so phase 1 missed them) but
/// whose parents are already mapped.
fn recover_by_parent(
    source_tree: &Tree,
    destination_tree: &Tree,
    source_descendants: &Vec<NodeId>,
    mapping: &mut Mapping,
    Ghost(targets): Ghost<Seq<usize>>,
)
    requires
        source_tree.wf(),
        destination_tree.wf(),
        old(mapping).wf(),
        old(mapping).fits(source_tree.arena().len(), destination_tree.arena().len()),
        forall|j: int|
            0 <= j < source_descendants@.len() ==> #[trigger] source_descendants@[j]
                < source_tree.arena().len(),
    ensures
        final(mapping).wf(),
        final(mapping).fits(source_tree.arena().len(), destination_tree.arena().len()),
        keeps_links(*old(mapping), *final(mapping)),
        new_links_recovered(
            source_tree.arena(),
            destination_tree.arena(),
            source_descendants@,
            targets,
            *old(mapping),
            *final(mapping),
        ),
        forall|q: int|
            0 <= q < source_descendants@.len() ==> (!final(mapping).fwd().contains_key(
                #[trigger] source_descendants@[q],
            ) ==> siblings_taken(
                source_tree.arena(),
                destination_tree.arena(),
                *old(mapping),
                *final(mapping),
                source_descendants@[q],
            )),
        forall|s: usize| #[trigger]
            final(mapping).fwd().contains_key(s) && !old(mapping).fwd().contains_key(s) ==> parent_pick(
                source_tree.arena(),
                destination_tree.arena(),
                *final(mapping),
                s,
                final(mapping).fwd()[s],
            ),
{
    let ghost t1 = source_tree.arena();
    let ghost t2 = destination_tree.arena();
    let ghost start = *mapping;
    let ghost sids = source_descendants@;
    let length = source_descendants.len();
    let mut i: usize = 0;
    while i < length
        invariant
            source_tree.wf(),
            destination_tree.wf(),
            t1 == source_tree.arena(),
            t2 == destination_tree.arena(),
            length == source_descendants@.len(),
            forall|j: int| 0 <= j < source_descendants@.len() ==> #[trigger] source_descendants@[j] < t1.len(),
            mapping.wf(),
            mapping.fits(t1.len(), t2.len()),
            keeps_links(start, *mapping),
            new_links_recovered(t1, t2, source_descendants@, targets, start, *mapping),
            i <= length,
            start.wf(),
            sids == source_descendants@,
            forall|q: int|
                0 <= q < i ==> (!mapping.fwd().contains_key(#[trigger] sids[q]) ==> siblings_taken(
                    t1,
                    t2,
                    start,
                    *mapping,
                    sids[q],
                )),
            forall|s: usize| #[trigger]
                mapping.fwd().contains_key(s) && !start.fwd().contains_key(s) ==> parent_pick(
                    t1,
                    t2,
                    *mapping,
                    s,
                    mapping.fwd()[s],
                ),
        decreases length - i,
    {
        let source_id = source_descendants[i];
        proof {
            assert(source_descendants@.contains(source_id)) by {
                assert(source_descendants@[i as int] == source_id);
            }
        }
        let ghost q0 = i as int;
        i += 1;
        if mapping.has_src(source_id) {
            continue;
        }
        let source = source_tree.node(source_id);
        let parent_id = match source.parent {
            Some(p) => p,
            None => continue,
        };
        let mapped_parent = match mapping.get_dst(parent_id) {
            Some(d) => d,
            None => {
                proof {
                    assert(!start.fwd().contains_key(parent_id));
                    assert(siblings_taken(t1, t2, start, *mapping, sids[q0]));
                }
                continue;
            },
        };
        proof {
            assert(parent_id < source_id);
        }

        // Same-index sibling first (preserves position when possible).
        let sibling_index = source_tree.position_in_parent(source_id).unwrap();

        let destination_siblings = &destination_tree.node(mapped_parent).children;
        let ghost before = *mapping;
        if sibling_index < destination_siblings.len() {
            let candidate = destination_siblings[sibling_index];
            proof {
                assert(t2[mapped_parent as int].children@[sibling_index as int] == candidate);
            }
            if !mapping.has_dst(candidate) && destination_tree.node(candidate).kind == source.kind {
                mapping.link(source_id, candidate);
                proof {
                    lemma_keeps_links_trans(start, before, *mapping);
                    assert(t2[candidate as int].parent == Some(mapped_parent));
                    assert(parents_linked(t1, t2, *mapping, source_id as int, candidate as int));
                    assert(new_links_recovered(t1, t2, source_descendants@, targets, before, *mapping));
                    lemma_recovered_trans(t1, t2, source_descendants@, targets, start, before, *mapping);
                    lemma_siblings_still_taken(t1, t2, start, before, *mapping, sids, i as int);
                    lemma_picks_kept(t1, t2, start, before, *mapping, source_id);
                }
                continue;
            }
        }

        // Otherwise, first unmapped same-kind sibling.
        let count = destination_siblings.len();
        let mut k: usize = 0;
        while k < count
            invariant
                destination_tree.wf(),
                t2 == destination_tree.arena(),
                mapped_parent < t2.len(),
                *destination_siblings == t2[mapped_parent as int].children,
                count == destination_siblings@.len(),
                k <= count,
                source_id < t1.len(),
                *source == t1[source_id as int],
                forall|k2: int|
                    0 <= k2 < k ==> mapping.bwd().contains_key(#[trigger] destination_siblings@[k2]) || t2[destination_siblings@[k2] as int].kind@
                        != t1[source_id as int].kind@,
            ensures
                k < count ==> !mapping.bwd().contains_key(destination_siblings@[k as int])
                    && t2[destination_siblings@[k as int] as int].kind@ == t1[source_id as int].kind@,
            decreases count - k,
        {
            let candidate = destination_siblings[k];
            assert(t2[mapped_parent as int].children@[k as int] == candidate);
            if !mapping.has_dst(candidate) && destination_tree.node(candidate).kind == source.kind {
                break;
            }
            k += 1;
        }
        if k < count {
            let candidate = destination_siblings[k];
            assert(t2[mapped_parent as int].children@[k as int] == candidate);
            if !mapping.has_dst(candidate) && destination_tree.node(candidate).kind == source.kind {
                mapping.link(source_id, candidate);
                proof {
                    lemma_keeps_links_trans(start, before, *mapping);
                    assert(t2[candidate as int].parent == Some(mapped_parent));
                    assert(parents_linked(t1, t2, *mapping, source_id as int, candidate as int));
                    assert(new_links_recovered(t1, t2, source_descendants@, targets, before, *mapping));
                    lemma_recovered_trans(t1, t2, source_descendants@, targets, start, before, *mapping);
                    lemma_siblings_still_taken(t1, t2, start, before, *mapping, sids, i as int);
                    lemma_picks_kept(t1, t2, start, before, *mapping, source_id);
                }
            }
        } else {
            proof {
                if start.fwd().contains_key(parent_id) {
                    assert(start.fwd()[parent_id] == mapped_parent);
                    let siblings = t2[mapped_parent as int].children@;
                    assert forall|k2: int|
                        0 <= k2 < siblings.len() && t2[#[trigger] siblings[k2] as int].kind@ == t1[source_id as int].kind@
                            implies mapping.bwd().contains_key(siblings[k2]) by {
                        assert(siblings[k2] == destination_siblings@[k2]);
                    }
                }
                assert(siblings_taken(t1, t2, start, *mapping, sids[q0]));
            }
        }
    }
}

} // verus!

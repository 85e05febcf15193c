//! Two-phase tree matching: top-down then bottom-up.
//!
//! See [`topdown::match_top_down`] and [`bottomup::match_bottom_up`] for the
//! individual phases. [`match_trees`] runs both in sequence with default
//! hyperparameters.

pub mod bottomup;
pub mod line_diff;
pub mod topdown;

use vstd::prelude::*;

use crate::actions::identity_on;
use crate::mapping::Mapping;
use crate::ratio::Ratio;
use crate::tree::{
    in_subtree, kids, lemma_subtree_size_bound, metadata_ok, parents, subtree_size, Node, NodeId,
    Tree,
};

verus! {

/// `new` keeps every link of `old`.
pub open spec fn keeps_links(old: Mapping, new: Mapping) -> bool {
    forall|s: usize| #[trigger]
        old.fwd().contains_key(s) ==> new.fwd().contains_key(s) && new.fwd()[s] == old.fwd()[s]
}

/// Every link of `new` that `old` lacks joins two nodes of the same kind.
pub open spec fn new_links_same_kind(t1: Seq<Node>, t2: Seq<Node>, old: Mapping, new: Mapping) -> bool {
    forall|s: usize| #[trigger]
        new.fwd().contains_key(s) && !old.fwd().contains_key(s) ==> t1[s as int].kind@ == t2[new.fwd()[s] as int].kind@
}

/// The parents of `s` and `d` are linked to each other in `m`.
pub open spec fn parents_linked(t1: Seq<Node>, t2: Seq<Node>, m: Mapping, s: int, d: int) -> bool {
    match (t1[s].parent, t2[d].parent) {
        (Some(ps), Some(pd)) => m.fwd().contains_key(ps) && m.fwd()[ps] == pd,
        _ => false,
    }
}

/// Every link of `new` that `old` lacks starts from a node of `sources` and
/// joins two nodes of the same kind that also share their label, the second
/// one among `targets`, or hang from nodes linked to each other.
pub open spec fn new_links_recovered(
    t1: Seq<Node>,
    t2: Seq<Node>,
    sources: Seq<usize>,
    targets: Seq<usize>,
    old: Mapping,
    new: Mapping,
) -> bool {
    forall|s: usize| #[trigger]
        new.fwd().contains_key(s) && !old.fwd().contains_key(s) ==> {
            let d = new.fwd()[s] as int;
            &&& sources.contains(s)
            &&& t1[s as int].kind@ == t2[d].kind@
            &&& ((t1[s as int].label@ == t2[d].label@ && targets.contains(d as usize)) || parents_linked(
                t1,
                t2,
                new,
                s as int,
                d,
            ))
        }
}

/// Recovered growth composes.
pub proof fn lemma_recovered_trans(
    t1: Seq<Node>,
    t2: Seq<Node>,
    sources: Seq<usize>,
    targets: Seq<usize>,
    a: Mapping,
    b: Mapping,
    c: Mapping,
)
    requires
        keeps_links(a, b),
        keeps_links(b, c),
        new_links_recovered(t1, t2, sources, targets, a, b),
        new_links_recovered(t1, t2, sources, targets, b, c),
    ensures
        new_links_recovered(t1, t2, sources, targets, a, c),
{
    assert forall|s: usize| #[trigger] c.fwd().contains_key(s) && !a.fwd().contains_key(s) implies {
        let d = c.fwd()[s] as int;
        &&& sources.contains(s)
        &&& t1[s as int].kind@ == t2[d].kind@
        &&& ((t1[s as int].label@ == t2[d].label@ && targets.contains(d as usize)) || parents_linked(
            t1,
            t2,
            c,
            s as int,
            d,
        ))
    } by {
        if b.fwd().contains_key(s) {
            assert(c.fwd()[s] == b.fwd()[s]);
            match (t1[s as int].parent, t2[c.fwd()[s] as int].parent) {
                (Some(ps), Some(pd)) => {
                    if b.fwd().contains_key(ps) {
                        assert(c.fwd()[ps] == b.fwd()[ps]);
                    }
                },
                _ => {},
            }
        }
    }
}

/// Recovered links are same-kind links.
pub proof fn lemma_recovered_same_kind(
    t1: Seq<Node>,
    t2: Seq<Node>,
    sources: Seq<usize>,
    targets: Seq<usize>,
    a: Mapping,
    b: Mapping,
)
    requires
        new_links_recovered(t1, t2, sources, targets, a, b),
    ensures
        new_links_same_kind(t1, t2, a, b),
{
}

/// Every link of `m` joins two nodes of the same kind, or two nodes at the
/// same place below a pair of nodes that anchored the top-down phase.
pub open spec fn links_grounded(t1: Seq<Node>, t2: Seq<Node>, min_height: int, m: Mapping) -> bool {
    forall|s: usize| #[trigger]
        m.fwd().contains_key(s) ==> t1[s as int].kind@ == t2[m.fwd()[s] as int].kind@ || exists|a: int, b: int|
            #[trigger] topdown::anchor_ok(t1, t2, min_height, a, b) && topdown::in_step(
                t1,
                t2,
                a,
                b,
                s as int,
                m.fwd()[s] as int,
            )
}

/// Growth by same-kind links keeps every link grounded.
proof fn lemma_grounded_grow(t1: Seq<Node>, t2: Seq<Node>, min_height: int, a: Mapping, b: Mapping)
    requires
        links_grounded(t1, t2, min_height, a),
        keeps_links(a, b),
        new_links_same_kind(t1, t2, a, b),
    ensures
        links_grounded(t1, t2, min_height, b),
{
    assert forall|s: usize| #[trigger] b.fwd().contains_key(s) implies t1[s as int].kind@ == t2[b.fwd()[s] as int].kind@
        || exists|x: int, y: int|
        #[trigger] topdown::anchor_ok(t1, t2, min_height, x, y) && topdown::in_step(t1, t2, x, y, s as int, b.fwd()[s] as int) by {
        if a.fwd().contains_key(s) {
            assert(b.fwd()[s] == a.fwd()[s]);
        }
    }
}

/// Keeping links is transitive.
pub proof fn lemma_keeps_links_trans(a: Mapping, b: Mapping, c: Mapping)
    requires
        keeps_links(a, b),
        keeps_links(b, c),
    ensures
        keeps_links(a, c),
{
}

/// Same-kind growth composes.
pub proof fn lemma_same_kind_trans(t1: Seq<Node>, t2: Seq<Node>, a: Mapping, b: Mapping, c: Mapping)
    requires
        keeps_links(a, b),
        keeps_links(b, c),
        new_links_same_kind(t1, t2, a, b),
        new_links_same_kind(t1, t2, b, c),
    ensures
        new_links_same_kind(t1, t2, a, c),
{
    assert forall|s: usize| #[trigger]
        c.fwd().contains_key(s) && !a.fwd().contains_key(s) implies t1[s as int].kind@
        == t2[c.fwd()[s] as int].kind@ by {
        if b.fwd().contains_key(s) {
            assert(c.fwd()[s] == b.fwd()[s]);
        }
    }
}

/// How many of `src` map onto a node strictly below `d`.
pub open spec fn common_count(
    src: Seq<usize>,
    fwd: Map<usize, usize>,
    par2: Seq<Option<usize>>,
    d: int,
) -> nat
    decreases src.len(),
{
    if src.len() == 0 {
        0
    } else {
        common_count(src.drop_last(), fwd, par2, d) + (if fwd.contains_key(src.last()) && fwd[src.last()]
            != d && in_subtree(par2, d, fwd[src.last()] as int) {
            1nat
        } else {
            0nat
        })
    }
}

/// Dice similarity `2 * |common| / (|src| + |desc(d)|)` as a fraction, where
/// `src` are the descendants on the source side; `0/1` when both sides have
/// no descendants.
pub open spec fn dice_spec(src: Seq<usize>, t2: Seq<Node>, fwd: Map<usize, usize>, d: int) -> (
    nat,
    nat,
) {
    let total = src.len() + t2[d].size - 1;
    if total <= 0 {
        (0, 1)
    } else {
        (2 * common_count(src, fwd, parents(t2), d), total as nat)
    }
}

/// `a >= b` for fractions given as (numerator, denominator).
pub open spec fn frac_ge(a: (nat, nat), b: (nat, nat)) -> bool {
    a.0 * b.1 >= b.0 * a.1
}

/// `a > b` for fractions given as (numerator, denominator).
pub open spec fn frac_gt(a: (nat, nat), b: (nat, nat)) -> bool {
    a.0 * b.1 > b.0 * a.1
}

/// `>=` between fractions with positive denominators is transitive.
pub proof fn lemma_frac_ge_trans(a: (nat, nat), b: (nat, nat), c: (nat, nat))
    requires
        a.1 > 0,
        b.1 > 0,
        c.1 > 0,
        frac_ge(a, b),
        frac_ge(b, c),
    ensures
        frac_ge(a, c),
{
    let (an, ad) = (a.0 as int, a.1 as int);
    let (bn, bd) = (b.0 as int, b.1 as int);
    let (cn, cd) = (c.0 as int, c.1 as int);
    assert(an * bd * cd >= bn * ad * cd) by (nonlinear_arith)
        requires
            an * bd >= bn * ad,
            cd > 0,
    ;
    assert(bn * cd * ad >= cn * bd * ad) by (nonlinear_arith)
        requires
            bn * cd >= cn * bd,
            ad > 0,
    ;
    assert(an * cd >= cn * ad) by (nonlinear_arith)
        requires
            an * bd * cd >= bn * ad * cd,
            bn * cd * ad >= cn * bd * ad,
            bd > 0,
    ;
}

/// Dice fractions always have a positive denominator.
pub proof fn lemma_dice_denominator(src: Seq<usize>, t2: Seq<Node>, fwd: Map<usize, usize>, d: int)
    ensures
        dice_spec(src, t2, fwd, d).1 > 0,
{
}

/// The images of a mapping lie in a tree of `n2` nodes.
pub open spec fn images_below(m: Mapping, n2: nat) -> bool {
    forall|s: usize| #[trigger] m.fwd().contains_key(s) ==> m.fwd()[s] < n2
}

/// Dice similarity between a pre-collected set of source descendants and the
/// descendants of `destination_node`, given a partial mapping.
///
/// Defined as `2 * |common| / (|desc(n1)| + |desc(n2)|)` where `common` is the
/// number of source descendants whose mapped image lies within the descendants
/// of `destination_node`. Taking the source side pre-collected lets callers
/// hoist that allocation out of candidate loops.
pub fn dice_with_source_descendants(
    source_descendants: &[NodeId],
    destination_tree: &Tree,
    destination_node: NodeId,
    mapping: &Mapping,
) -> (r: Ratio)
    requires
        destination_tree.wf(),
        mapping.wf(),
        images_below(*mapping, destination_tree.arena().len()),
        in_subtree(parents(destination_tree.arena()), destination_tree.root_id(), destination_node as int),
        source_descendants@.len() + destination_tree.arena().len() <= usize::MAX / 2,
    ensures
        r.wf(),
        (r.numerator as nat, r.denominator as nat) == dice_spec(
            source_descendants@,
            destination_tree.arena(),
            mapping.fwd(),
            destination_node as int,
        ),
{
    let ghost t2 = destination_tree.arena();
    let ghost par2 = parents(t2);
    let ghost fwd = mapping.fwd();
    let ghost src = source_descendants@;
    proof {
        assert(metadata_ok(t2, destination_node as int));
        lemma_subtree_size_bound(t2, destination_node as int);
    }
    let dest_count = destination_tree.node(destination_node).size - 1;

    if source_descendants.len() == 0 && dest_count == 0 {
        return Ratio::new(0, 1);
    }

    // Vec<bool> membership lookup: O(1) per test, no hashing, cache-friendly.
    let dest_member = destination_tree.descendant_set(destination_node);

    let length = source_descendants.len();
    let mut common: usize = 0;
    let mut k: usize = 0;
    while k < length
        invariant
            length == src.len(),
            src == source_descendants@,
            fwd == mapping.fwd(),
            par2 == parents(t2),
            t2 == destination_tree.arena(),
            images_below(*mapping, t2.len()),
            dest_member@.len() == t2.len(),
            forall|j: int|
                0 <= j < dest_member@.len() ==> #[trigger] dest_member@[j] == (j != destination_node
                    && in_subtree(par2, destination_node as int, j)),
            k <= length,
            common <= k,
            common == common_count(src.take(k as int), fwd, par2, destination_node as int),
        decreases length - k,
    {
        let descendant = source_descendants[k];
        proof {
            assert(src.take(k + 1).drop_last() =~= src.take(k as int));
            assert(src.take(k + 1).last() == descendant);
        }
        match mapping.get_dst(descendant) {
            Some(mapped_destination) => {
                if dest_member[mapped_destination] {
                    common += 1;
                }
            },
            None => {},
        }
        k += 1;
    }
    assert(src.take(length as int) =~= src);
    let total = length + dest_count;
    Ratio::new(2 * common, total)
}

/// Hyperparameters for the matcher.
#[derive(Debug, Clone, Copy)]
pub struct MatchOptions {
    /// Minimum subtree height for top-down anchor matching. Smaller subtrees
    /// are left to the bottom-up phase.
    pub min_height: usize,
    /// Minimum dice similarity to accept a bottom-up container match.
    pub min_dice: Ratio,
    /// Maximum subtree size for which the simple-recovery step runs.
    pub max_size: usize,
}

impl Default for MatchOptions {
    fn default() -> (o: Self)
        ensures
            o.min_height == topdown::DEFAULT_MIN_HEIGHT,
            o.min_dice.numerator == 1 && o.min_dice.denominator == 2,
            o.max_size == bottomup::DEFAULT_MAX_SIZE,
    {
        MatchOptions {
            min_height: topdown::DEFAULT_MIN_HEIGHT,
            min_dice: bottomup::default_min_dice(),
            max_size: bottomup::DEFAULT_MAX_SIZE,
        }
    }
}

/// What the two phases leave, through `top` (the mapping after the
/// top-down phase) and `mid` (after the bottom-up phase): every link of
/// `top` sits at the same place below an anchor pair; `mid` keeps `top`,
/// and every link it adds is a container pick or lies below one; a node of
/// the post-order walk left unlinked in `r` though it had a link below it
/// in `top` had no container; and `r` is `mid`, or `mid` with the two roots,
/// both free and of one kind, linked to each other and links added below.
pub open spec fn two_phases(st: Tree, dt: Tree, options: MatchOptions, top: Mapping, mid: Mapping, r: Mapping) -> bool {
    let t1 = st.arena();
    let t2 = dt.arena();
    let mh = options.min_height as int;
    let md = (options.min_dice.numerator as nat, options.min_dice.denominator as nat);
    let r1 = st.root_id();
    let r2 = dt.root_id();
    &&& forall|s: usize| #[trigger]
        top.fwd().contains_key(s) ==> exists|a: int, b: int|
            #[trigger] topdown::anchor_ok(t1, t2, mh, a, b) && topdown::in_step(t1, t2, a, b, s as int, top.fwd()[s] as int)
    &&& forall|x: int, y: int| #[trigger]
        topdown::unique_iso_pair(t1, t2, r1, r2, mh, x, y) ==> top.fwd().contains_key(x as usize) && top.fwd()[x as usize]
            == y as usize
    &&& keeps_links(top, mid)
    &&& bottomup::containers_ok(st, dt, top, mid, md)
    &&& forall|j: int|
        0 <= j < crate::tree::postorder(kids(t1), r1).len() ==> {
            let s = #[trigger] crate::tree::postorder(kids(t1), r1)[j];
            !r.fwd().contains_key(s) && bottomup::has_mapped_below(t1, top, s as int) ==> bottomup::no_container(
                st,
                s as int,
                dt,
                top,
                r,
                md,
            )
        }
    &&& (r == mid || {
        &&& !mid.fwd().contains_key(r1 as usize)
        &&& !mid.bwd().contains_key(r2 as usize)
        &&& t1[r1].kind@ == t2[r2].kind@
        &&& keeps_links(mid, r)
        &&& r.fwd().contains_key(r1 as usize)
        &&& r.fwd()[r1 as usize] == r2 as usize
    })
}

/// The matcher reads nothing of the destination tree outside its root's
/// subtree, whose nodes carry no size: the destination root has no parent,
/// and no destination node outside the subtree shares its kind with a
/// source node under the source root.
pub open spec fn outside_unread(st: Tree, dt: Tree) -> bool {
    &&& dt.arena()[dt.root_id()].parent is None
    &&& bottomup::candidates_rooted(st, dt)
}

/// A destination tree with every node under its root leaves nothing
/// outside the root to read.
pub proof fn lemma_connected_outside_unread(st: Tree, dt: Tree)
    requires
        dt.wf(),
        dt.connected(),
    ensures
        outside_unread(st, dt),
{
    let t2 = dt.arena();
    let r2 = dt.root_id();
    bottomup::lemma_connected_candidates_rooted(st, dt);
    if let Some(p) = t2[r2].parent {
        assert(p < r2);
        assert(in_subtree(parents(t2), r2, p as int));
        crate::tree::lemma_in_subtree_ge(parents(t2), r2, p as int);
    }
}

/// Runs both matching phases and returns the resulting mapping.
///
/// If neither phase anchors the roots (a degenerate case that happens with
/// very shallow trees, or when the root subtrees share no large isomorphic
/// regions), and the two roots agree in kind, this function anchors them and
/// performs one pass of simple recovery so that downstream consumers still
/// get a meaningful action set.
pub fn match_trees(source_tree: &Tree, destination_tree: &Tree, options: MatchOptions) -> (r: Mapping)
    requires
        source_tree.wf(),
        destination_tree.wf(),
        outside_unread(*source_tree, *destination_tree),
        source_tree.arena().len() + destination_tree.arena().len() <= usize::MAX / 2,
        options.min_dice.wf(),
    ensures
        r.wf(),
        r.fits(source_tree.arena().len(), destination_tree.arena().len()),
        source_tree.arena()[source_tree.root_id()].kind@ == destination_tree.arena()[destination_tree.root_id()].kind@
            ==> r.fwd().contains_key(source_tree.root_id() as usize) || r.bwd().contains_key(
            destination_tree.root_id() as usize,
        ),
        links_grounded(source_tree.arena(), destination_tree.arena(), options.min_height as int, r),
        crate::tree::same_tree(source_tree.arena(), destination_tree.arena()) && source_tree.root_id()
            == destination_tree.root_id() && source_tree.arena()[source_tree.root_id()].height > options.min_height
            && destination_tree.connected() ==> identity_on(
            source_tree.arena(),
            r,
        ),
        exists|top: Mapping, mid: Mapping| #[trigger] two_phases(*source_tree, *destination_tree, options, top, mid, r),
        forall|x: int, y: int|
            #[trigger] topdown::unique_iso_pair(
                source_tree.arena(),
                destination_tree.arena(),
                source_tree.root_id(),
                destination_tree.root_id(),
                options.min_height as int,
                x,
                y,
            ) ==> r.fwd().contains_key(x as usize) && r.fwd()[x as usize] == y as usize,
{
    let ghost t1 = source_tree.arena();
    let ghost t2 = destination_tree.arena();
    let ghost mh = options.min_height as int;
    let mut mapping = Mapping::new();
    proof {
        assert(mapping.fits(source_tree.arena().len(), destination_tree.arena().len()));
    }
    let ghost empty = mapping;
    let ghost same = crate::tree::same_tree(t1, t2) && source_tree.root_id() == destination_tree.root_id()
        && t1[source_tree.root_id()].height > options.min_height && destination_tree.connected();
    proof {
        assert(topdown::untouched(t1, empty, source_tree.root_id()));
    }
    topdown::match_top_down(source_tree, destination_tree, &mut mapping, options.min_height);
    proof {
        assert(links_grounded(t1, t2, mh, mapping)) by {
            assert forall|s: usize| #[trigger] mapping.fwd().contains_key(s) implies !empty.fwd().contains_key(s) by {
            }
        }
        if same {
            crate::tree::lemma_same_tree_metadata(t1, t2, source_tree.root_id());
            assert forall|x: usize|
                #![trigger mapping.fwd().contains_key(x)]
                #![trigger mapping.fwd()[x]]
                x < t1.len() implies mapping.fwd().contains_key(x) && mapping.fwd()[x] == x by {
                assert(in_subtree(parents(t2), destination_tree.root_id(), x as int));
                assert(in_subtree(parents(t1), source_tree.root_id(), x as int));
            }
            assert(identity_on(t1, mapping));
        }
    }
    let ghost after_top = mapping;
    let ghost after_top_down = mapping;
    let ghost r1 = source_tree.root_id();
    let ghost r2 = destination_tree.root_id();
    proof {
        assert forall|x: int, y: int| #[trigger]
            topdown::unique_iso_pair(t1, t2, r1, r2, mh, x, y) implies after_top.fwd().contains_key(x as usize)
                && after_top.fwd()[x as usize] == y as usize by {
            assert(!empty.fwd().contains_key(x as usize));
            assert(!empty.bwd().contains_key(y as usize));
        }
        assert forall|s: usize| #[trigger] after_top.fwd().contains_key(s) implies exists|a: int, b: int|
            #[trigger] topdown::anchor_ok(t1, t2, mh, a, b) && topdown::in_step(t1, t2, a, b, s as int, after_top.fwd()[s] as int) by {
            assert(!empty.fwd().contains_key(s));
        }
    }
    bottomup::match_bottom_up(
        source_tree,
        destination_tree,
        &mut mapping,
        options.min_dice,
        options.max_size,
    );
    proof {
        lemma_grounded_grow(t1, t2, mh, after_top_down, mapping);
        if same {
            assert forall|x: usize|
                #![trigger mapping.fwd().contains_key(x)]
                #![trigger mapping.fwd()[x]]
                x < t1.len() implies mapping.fwd().contains_key(x) && mapping.fwd()[x] == x by {
                assert(after_top.fwd().contains_key(x));
            }
        }
    }

    let ghost after_bottom = mapping;
    let source_root = source_tree.root();
    let destination_root = destination_tree.root();
    proof {
        assert(source_tree.arena().len() > 0 && destination_tree.arena().len() > 0) by {
            assert(crate::tree::arena_wf(source_tree.arena(), source_tree.root_id()));
            assert(crate::tree::arena_wf(destination_tree.arena(), destination_tree.root_id()));
        }
    }
    if !mapping.has_src(source_root) && !mapping.has_dst(destination_root) && source_tree.node(
        source_root,
    ).kind == destination_tree.node(destination_root).kind {
        let ghost unlinked = mapping;
        mapping.link(source_root, destination_root);
        let ghost linked = mapping;
        assert(linked.fwd().contains_key(source_root));
        proof {
            lemma_grounded_grow(t1, t2, mh, unlinked, linked);
        }
        bottomup::recover_simple(
            source_tree,
            source_root,
            destination_tree,
            destination_root,
            &mut mapping,
        );
        assert(mapping.fwd().contains_key(source_root));
        proof {
            lemma_grounded_grow(t1, t2, mh, linked, mapping);
            lemma_keeps_links_trans(after_bottom, linked, mapping);
            let md = (options.min_dice.numerator as nat, options.min_dice.denominator as nat);
            let r1 = source_tree.root_id();
            assert forall|j: int| 0 <= j < crate::tree::postorder(kids(t1), r1).len() implies {
                let s = #[trigger] crate::tree::postorder(kids(t1), r1)[j];
                !mapping.fwd().contains_key(s) && bottomup::has_mapped_below(t1, after_top, s as int) ==> bottomup::no_container(
                    *source_tree,
                    s as int,
                    *destination_tree,
                    after_top,
                    mapping,
                    md,
                )
            } by {
                let s = crate::tree::postorder(kids(t1), r1)[j];
                if !mapping.fwd().contains_key(s) && bottomup::has_mapped_below(t1, after_top, s as int) {
                    assert(!after_bottom.fwd().contains_key(s));
                    bottomup::lemma_no_container_kept(*source_tree, s as int, *destination_tree, after_top, after_bottom, mapping, md);
                }
            }
            assert(two_phases(*source_tree, *destination_tree, options, after_top, after_bottom, mapping));
            lemma_keeps_links_trans(after_top, after_bottom, mapping);
        }
    } else {
        proof {
            assert(two_phases(*source_tree, *destination_tree, options, after_top, after_bottom, mapping));
        }
    }
    proof {
        assert forall|x: int, y: int| #[trigger]
            topdown::unique_iso_pair(t1, t2, r1, r2, mh, x, y) implies mapping.fwd().contains_key(x as usize)
                && mapping.fwd()[x as usize] == y as usize by {
            assert(after_top.fwd().contains_key(x as usize));
        }
    }
    mapping
}

/// Taking one more entry of `ids` adds it to what a filter keeps exactly
/// when the entry passes.
pub proof fn lemma_filter_take_step(ids: Seq<usize>, p: spec_fn(usize) -> bool, k: int)
    requires
        0 <= k < ids.len(),
    ensures
        ids.take(k + 1).filter(p) == if p(ids[k]) {
            ids.take(k).filter(p).push(ids[k])
        } else {
            ids.take(k).filter(p)
        },
{
    reveal(Seq::filter);
    assert(ids.take(k + 1).drop_last() =~= ids.take(k));
    assert(ids.take(k + 1).last() == ids[k]);
}

/// A filter of no entries keeps nothing.
pub proof fn lemma_filter_take_none(ids: Seq<usize>, p: spec_fn(usize) -> bool)
    ensures
        ids.take(0).filter(p) == Seq::<usize>::empty(),
{
    reveal(Seq::filter);
    assert(ids.take(0) =~= Seq::<usize>::empty());
}

} // verus!

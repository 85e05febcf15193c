//! Conversion from a tree-sitter syntax tree into our internal AST
//! representation.
//!
//! Filtering and labelling decisions are delegated to the [`LanguageProfile`].

use tree_sitter::{Node as SyntaxNode, Tree as SyntaxTree};
use vstd::prelude::*;

use crate::language::LanguageProfile;
use crate::syntax::{
    node_child, node_child_count, node_descendant_count, node_end_byte, node_is_named, node_kind,
    node_start_byte, root_node, utf8_str,
};
use crate::tree::{in_subtree, parents, Node, NodeId, Tree, TreeBuilder};

verus! {

/// Every node but the first hangs from an earlier node, and the first from
/// none: the shape a depth-first conversion builds.
pub open spec fn rooted_at_first(nodes: Seq<Node>) -> bool {
    &&& nodes.len() > 0
    &&& nodes[0].parent is None
    &&& forall|i: int| 0 < i < nodes.len() ==> (#[trigger] nodes[i].parent) is Some
}

/// In an arena rooted at its first node, every node lies under node 0.
pub proof fn lemma_rooted_at_first(nodes: Seq<Node>, i: int)
    requires
        crate::tree::arena_links(nodes),
        rooted_at_first(nodes),
        0 <= i < nodes.len(),
    ensures
        in_subtree(parents(nodes), 0, i),
    decreases i,
{
    let par = parents(nodes);
    assert(par.len() == nodes.len());
    if i == 0 {
        assert(in_subtree(par, 0, 0));
    } else {
        assert(nodes[i].parent is Some);
        let p = nodes[i].parent.unwrap() as int;
        assert(par[i] == nodes[i].parent);
        lemma_rooted_at_first(nodes, p);
    }
}

/// One syntax node as plain values: its grammar kind, whether the grammar
/// names it, its byte span, and the indices of its children among the
/// records.
pub struct SyntaxRecord {
    pub kind: String,
    pub named: bool,
    pub start: usize,
    pub end: usize,
    pub children: Vec<usize>,
}

/// A list of records describing a tree rooted at the first record: every
/// child comes after its parent.
pub open spec fn records_wf(r: Seq<SyntaxRecord>) -> bool {
    &&& r.len() > 0
    &&& forall|i: int, k: int|
        0 <= i < r.len() && 0 <= k < r[i].children@.len() ==> i < #[trigger] r[i].children@[k] < r.len()
}

/// The nodes the conversion makes of the subtree of record `i`, in
/// depth-first order, laid out from position `at` with `up` as the parent
/// of the first: each entry names its record and its parent's position.
/// A child is converted, with its subtree, exactly when it is kept.
pub open spec fn conv(r: Seq<SyntaxRecord>, keep: Seq<bool>, i: int, at: int, up: Option<usize>) -> Seq<(usize, Option<usize>)>
    decreases r.len() - i, 1int, 0int,
{
    if 0 <= i < r.len() {
        seq![(i as usize, up)] + conv_from(r, keep, i, 0, at + 1, at as usize)
    } else {
        seq![]
    }
}

/// The nodes the conversion makes of the children of record `i` from the
/// `k`-th on, laid out from position `at`, each hanging from position `me`.
pub open spec fn conv_from(r: Seq<SyntaxRecord>, keep: Seq<bool>, i: int, k: int, at: int, me: usize) -> Seq<
    (usize, Option<usize>),
>
    decreases r.len() - i, 0int, r[i].children@.len() - k,
{
    if 0 <= i < r.len() && 0 <= k < r[i].children@.len() {
        let c = r[i].children@[k] as int;
        let here = if i < c < r.len() && keep[c] {
            conv(r, keep, c, at, Some(me))
        } else {
            seq![]
        };
        here + conv_from(r, keep, i, k + 1, at + here.len(), me)
    } else {
        seq![]
    }
}

/// Node `n` is what the conversion makes of record `x`: its kind and span,
/// and as label the span's text when `labelled`, else the empty text.
pub open spec fn node_from(n: Node, x: SyntaxRecord, source: Seq<u8>, labelled: bool) -> bool {
    &&& n.kind@ == x.kind@
    &&& n.start_byte == x.start
    &&& n.end_byte == x.end
    &&& if labelled {
        span_text(source, x.start as int, x.end as int, n.label@)
    } else {
        n.label@.len() == 0
    }
}

/// The arena nodes from position `base` on are the entries `c`: each node
/// made of its record, hanging from its entry's parent.
pub open spec fn laid_out(
    a: Seq<Node>,
    base: int,
    c: Seq<(usize, Option<usize>)>,
    r: Seq<SyntaxRecord>,
    source: Seq<u8>,
    lab: Seq<bool>,
) -> bool {
    forall|q: int|
        0 <= q < c.len() ==> node_from(#[trigger] a[base + q], r[c[q].0 as int], source, lab[c[q].0 as int])
            && a[base + q].parent == c[q].1
}

/// The arena is the conversion of the records: the nodes of the kept
/// subtree of the first record, in depth-first order.
pub open spec fn converted(a: Seq<Node>, r: Seq<SyntaxRecord>, source: Seq<u8>, keep: Seq<bool>, lab: Seq<bool>) -> bool {
    let c = conv(r, keep, 0, 0, None);
    &&& a.len() == c.len()
    &&& laid_out(a, 0, c, r, source, lab)
}

/// `a` is `b` with perhaps more children: the same id, kind, label, span
/// and parent.
pub open spec fn same_but_children(a: Node, b: Node) -> bool {
    &&& a.id == b.id
    &&& a.kind == b.kind
    &&& a.label == b.label
    &&& a.start_byte == b.start_byte
    &&& a.end_byte == b.end_byte
    &&& a.parent == b.parent
}

/// Nodes kept but for their children keep being laid out.
proof fn lemma_laid_out_kept(
    a: Seq<Node>,
    b: Seq<Node>,
    base: int,
    c: Seq<(usize, Option<usize>)>,
    r: Seq<SyntaxRecord>,
    source: Seq<u8>,
    lab: Seq<bool>,
)
    requires
        laid_out(b, base, c, r, source, lab),
        0 <= base,
        base + c.len() <= b.len(),
        forall|j: int| 0 <= j < b.len() ==> same_but_children(#[trigger] a[j], b[j]),
    ensures
        laid_out(a, base, c, r, source, lab),
{
    assert forall|q: int| 0 <= q < c.len() implies node_from(#[trigger] a[base + q], r[c[q].0 as int], source, lab[c[q].0 as int])
        && a[base + q].parent == c[q].1 by {
        assert(same_but_children(a[base + q], b[base + q]));
        assert(node_from(b[base + q], r[c[q].0 as int], source, lab[c[q].0 as int]));
    }
}

/// Adds the nodes of the kept subtree of record `i`, in depth-first order,
/// the first hanging from `parent`.
fn add_kept(
    records: &Vec<SyntaxRecord>,
    source: &[u8],
    keep: &Vec<bool>,
    lab: &Vec<bool>,
    i: usize,
    parent: Option<NodeId>,
    builder: &mut TreeBuilder,
)
    requires
        records_wf(records@),
        keep@.len() == records@.len(),
        lab@.len() == records@.len(),
        i < records@.len(),
        old(builder).wf(),
        parent matches Some(p) ==> p < old(builder).arena().len(),
    ensures
        final(builder).wf(),
        final(builder).arena().len() == old(builder).arena().len() + conv(
            records@,
            keep@,
            i as int,
            old(builder).arena().len() as int,
            parent,
        ).len(),
        laid_out(
            final(builder).arena(),
            old(builder).arena().len() as int,
            conv(records@, keep@, i as int, old(builder).arena().len() as int, parent),
            records@,
            source@,
            lab@,
        ),
        forall|j: int|
            0 <= j < old(builder).arena().len() ==> same_but_children(
                #[trigger] final(builder).arena()[j],
                old(builder).arena()[j],
            ),
        forall|q: int|
            old(builder).arena().len() < q < final(builder).arena().len() ==> (#[trigger] final(builder).arena()[q].parent) is Some,
    decreases records@.len() - i,
{
    let ghost r = records@;
    let ghost base = builder.arena().len() as int;
    let ghost before = builder.arena();
    let record = &records[i];
    proof {
        reveal_strlit("");
    }
    let label = if lab[i] {
        text_span(source, record.start, record.end)
    } else {
        ""
    };
    let id = builder.add(record.kind.as_str(), label, parent, record.start, record.end);
    let ghost whole = conv(r, keep@, i as int, base, parent);
    let ghost kids = conv_from(r, keep@, i as int, 0, base + 1, id);
    proof {
        assert(whole == seq![(i, parent)] + kids);
        assert forall|j: int| 0 <= j < base implies same_but_children(#[trigger] builder.arena()[j], before[j]) by {
        }
        assert(laid_out(builder.arena(), base, whole.subrange(0, 1), r, source@, lab@)) by {
            assert(whole.subrange(0, 1)[0] == (i, parent));
        }
        assert(kids.subrange(0, 0) =~= Seq::<(usize, Option<usize>)>::empty());
        assert(kids =~= kids.subrange(0, 0) + kids);
    }
    let count = record.children.len();
    let mut k: usize = 0;
    while k < count
        invariant
            records_wf(r),
            r == records@,
            keep@.len() == r.len(),
            lab@.len() == r.len(),
            i < r.len(),
            *record == r[i as int],
            count == record.children@.len(),
            k <= count,
            id == base,
            0 <= base,
            builder.wf(),
            base + 1 <= builder.arena().len(),
            whole == seq![(i, parent)] + kids,
            kids == conv_from(r, keep@, i as int, 0, base + 1, id),
            kids == kids.subrange(0, builder.arena().len() - base - 1) + conv_from(
                r,
                keep@,
                i as int,
                k as int,
                builder.arena().len() as int,
                id,
            ),
            builder.arena().len() - base - 1 + conv_from(r, keep@, i as int, k as int, builder.arena().len() as int, id).len()
                == kids.len(),
            laid_out(builder.arena(), base, whole.subrange(0, builder.arena().len() - base), r, source@, lab@),
            forall|j: int| 0 <= j < base ==> same_but_children(#[trigger] builder.arena()[j], before[j]),
            forall|q: int| base < q < builder.arena().len() ==> (#[trigger] builder.arena()[q].parent) is Some,
        decreases count - k,
    {
        let c = record.children[k];
        let ghost at = builder.arena().len() as int;
        let ghost mid = builder.arena();
        let ghost rest = conv_from(r, keep@, i as int, k as int, at, id);
        proof {
            assert(r[i as int].children@[k as int] == c);
            assert(i < c < r.len());
        }
        if keep[c] {
            add_kept(records, source, keep, lab, c, Some(id), builder);
            proof {
                let sub = conv(r, keep@, c as int, at, Some(id));
                let after = builder.arena();
                let l2 = after.len() as int;
                assert(rest == sub + conv_from(r, keep@, i as int, k + 1, at + sub.len(), id));
                assert(l2 == at + sub.len());
                let pre = kids.subrange(0, at - base - 1);
                assert(kids == pre + rest);
                assert(pre.len() == at - base - 1);
                assert(kids.subrange(0, l2 - base - 1) =~= pre + sub);
                assert(kids =~= kids.subrange(0, l2 - base - 1) + conv_from(r, keep@, i as int, k + 1, l2, id));
                lemma_laid_out_kept(after, mid, base, whole.subrange(0, at - base), r, source@, lab@);
                assert(whole.subrange(0, l2 - base) =~= whole.subrange(0, at - base) + sub);
                assert forall|q: int| 0 <= q < whole.subrange(0, l2 - base).len() implies node_from(
                    #[trigger] after[base + q],
                    r[whole.subrange(0, l2 - base)[q].0 as int],
                    source@,
                    lab@[whole.subrange(0, l2 - base)[q].0 as int],
                ) && after[base + q].parent == whole.subrange(0, l2 - base)[q].1 by {
                    if q < at - base {
                        assert(whole.subrange(0, l2 - base)[q] == whole.subrange(0, at - base)[q]);
                    } else {
                        assert(whole.subrange(0, l2 - base)[q] == sub[q - (at - base)]);
                        assert(after[base + q] == after[at + (q - (at - base))]);
                    }
                }
                assert forall|j: int| 0 <= j < base implies same_but_children(#[trigger] after[j], before[j]) by {
                    assert(same_but_children(after[j], mid[j]));
                }
                assert forall|q: int| base < q < l2 implies (#[trigger] after[q].parent) is Some by {
                    if q < at {
                        assert(same_but_children(after[q], mid[q]));
                    } else if q == at {
                        assert(sub[0] == (c, Some(id)));
                        assert(after[at + 0].parent == sub[0].1);
                    }
                }
            }
        } else {
            proof {
                assert(rest == conv_from(r, keep@, i as int, k + 1, at, id));
            }
        }
        k += 1;
    }
    proof {
        let l = builder.arena().len() as int;
        assert(conv_from(r, keep@, i as int, k as int, l, id) =~= Seq::<(usize, Option<usize>)>::empty());
        assert(kids =~= kids.subrange(0, l - base - 1));
        assert(whole.subrange(0, l - base) =~= whole);
    }
}

/// Converts syntax records into a tree: the first record becomes the root,
/// and every kept child becomes a node with its subtree, in depth-first
/// order; `keep` says which records are kept, `lab` which nodes carry their
/// span's text as label.
pub fn convert_records(records: &Vec<SyntaxRecord>, source: &[u8], keep: &Vec<bool>, lab: &Vec<bool>) -> (t: Tree)
    requires
        records_wf(records@),
        keep@.len() == records@.len(),
        lab@.len() == records@.len(),
    ensures
        t.wf(),
        t.connected(),
        t.root_id() == 0,
        converted(t.arena(), records@, source@, keep@, lab@),
{
    let mut builder = TreeBuilder::new();
    add_kept(records, source, keep, lab, 0, None, &mut builder);
    let ghost nodes = builder.arena();
    proof {
        assert(conv(records@, keep@, 0, 0, None)[0].1 == None::<usize>);
        assert(nodes.len() >= 1);
    }
    let t = builder.build(0);
    proof {
        crate::tree::lemma_same_structure(t.arena(), nodes);
        assert(rooted_at_first(t.arena())) by {
            assert forall|i: int| 0 < i < t.arena().len() implies (#[trigger] t.arena()[i].parent) is Some by {
                assert(t.arena()[i].parent == nodes[i].parent);
            }
            assert(t.arena()[0].parent == nodes[0].parent);
        }
        assert forall|i: int| 0 <= i < t.arena().len() implies #[trigger] in_subtree(parents(t.arena()), t.root_id(), i) by {
            lemma_rooted_at_first(t.arena(), i);
        }
        let c = conv(records@, keep@, 0, 0, None);
        assert forall|q: int| 0 <= q < c.len() implies node_from(#[trigger] t.arena()[0 + q], records@[c[q].0 as int], source@, lab@[c[q].0 as int])
            && t.arena()[0 + q].parent == c[q].1 by {
            assert(t.arena()[q].kind == nodes[q].kind);
            assert(node_from(nodes[0 + q], records@[c[q].0 as int], source@, lab@[c[q].0 as int]));
        }
    }
    t
}

/// The records of the syntax tree, one per node, numbered breadth-first
/// from the root; each lists its children in order.
pub fn syntax_records(ts_tree: &SyntaxTree) -> (r: Vec<SyntaxRecord>)
    ensures
        records_wf(r@),
{
    let root = root_node(ts_tree);
    let mut nodes: Vec<SyntaxNode> = Vec::new();
    nodes.push(root);
    let mut firsts: Vec<usize> = Vec::new();
    let mut counts: Vec<usize> = Vec::new();
    // The tree holds this many nodes, so the walk visits no more than that;
    // the count bounds the loop.
    let mut budget = node_descendant_count(&root);
    let mut i: usize = 0;
    while i < nodes.len() && budget > 0
        invariant
            firsts@.len() == i,
            counts@.len() == i,
            i <= nodes@.len(),
            nodes@.len() >= 1,
            forall|q: int| 0 <= q < i ==> q < #[trigger] firsts@[q] && firsts@[q] + counts@[q] <= nodes@.len(),
        decreases budget,
    {
        budget -= 1;
        let node = nodes[i];
        let count = node_child_count(&node);
        let first = nodes.len();
        let mut j: usize = 0;
        while j < count
            invariant
                first <= nodes@.len(),
                nodes@.len() >= 1,
                i < first,
                firsts@.len() == i,
                counts@.len() == i,
                forall|q: int| 0 <= q < i ==> q < #[trigger] firsts@[q] && firsts@[q] + counts@[q] <= nodes@.len(),
            decreases count - j,
        {
            if let Some(child) = node_child(&node, j) {
                nodes.push(child);
            }
            j += 1;
        }
        firsts.push(first);
        counts.push(nodes.len() - first);
        i += 1;
    }
    let mut records: Vec<SyntaxRecord> = Vec::new();
    let mut q: usize = 0;
    while q < nodes.len()
        invariant
            q <= nodes@.len(),
            nodes@.len() >= 1,
            records@.len() == q,
            firsts@.len() == counts@.len(),
            firsts@.len() <= nodes@.len(),
            forall|p: int| 0 <= p < firsts@.len() ==> p < #[trigger] firsts@[p] && firsts@[p] + counts@[p] <= nodes@.len(),
            forall|p: int, k: int|
                0 <= p < q && 0 <= k < records@[p].children@.len() ==> p < #[trigger] records@[p].children@[k] < nodes@.len(),
        decreases nodes@.len() - q,
    {
        let node = nodes[q];
        let mut children: Vec<usize> = Vec::new();
        if q < firsts.len() {
            let first = firsts[q];
            let count = counts[q];
            let total = nodes.len();
            let mut k: usize = 0;
            while k < count
                invariant
                    k <= count,
                    q < first,
                    first + count <= total,
                    total == nodes@.len(),
                    children@.len() == k,
                    forall|m: int| 0 <= m < k ==> #[trigger] children@[m] == first + m,
                decreases count - k,
            {
                children.push(first + k);
                k += 1;
            }
        }
        let ghost before = records@;
        records.push(SyntaxRecord {
            kind: String::from_str(node_kind(&node)),
            named: node_is_named(&node),
            start: node_start_byte(&node),
            end: node_end_byte(&node),
            children,
        });
        proof {
            assert forall|p: int, k: int|
                0 <= p < q + 1 && 0 <= k < records@[p].children@.len() implies p < #[trigger] records@[p].children@[k]
                < nodes@.len() by {
                if p < q {
                    assert(records@[p] == before[p]);
                }
            }
        }
        q += 1;
    }
    records
}

/// `a` is a conversion of the records: the records describe a tree, every
/// record without children is kept, and `a` is what keeping and labelling
/// them as `keep` and `lab` say makes of them.
pub open spec fn conversion_of(a: Seq<Node>, r: Seq<SyntaxRecord>, source: Seq<u8>, keep: Seq<bool>, lab: Seq<bool>) -> bool {
    &&& records_wf(r)
    &&& keep.len() == r.len()
    &&& lab.len() == r.len()
    &&& forall|i: int| 0 <= i < r.len() && (#[trigger] r[i]).children@.len() == 0 ==> keep[i]
    &&& converted(a, r, source, keep, lab)
}

/// Converts a tree-sitter tree to an internal [`Tree`], using `profile` to
/// decide which nodes survive and which carry labels: a node is kept when
/// the profile keeps it or it has no children (so that keywords and
/// punctuation take part in matching), and its label is its source text
/// when the profile labels it, told whether it has no kept child.
pub fn convert<P: LanguageProfile>(ts_tree: &SyntaxTree, source: &[u8], profile: &P) -> (t: Tree)
    ensures
        t.wf(),
        t.connected(),
        t.root_id() == 0,
        exists|r: Seq<SyntaxRecord>, keep: Seq<bool>, lab: Seq<bool>| #[trigger] conversion_of(t.arena(), r, source@, keep, lab),
{
    let records = syntax_records(ts_tree);
    let (keep, lab) = profile_decisions(&records, profile);
    let t = convert_records(&records, source, &keep, &lab);
    proof {
        assert(conversion_of(t.arena(), records@, source@, keep@, lab@));
    }
    t
}

/// `keep` and `lab` are decisions for the records: one of each per record,
/// and every record without children kept.
pub open spec fn decisions_for(r: Seq<SyntaxRecord>, keep: Seq<bool>, lab: Seq<bool>) -> bool {
    &&& records_wf(r)
    &&& keep.len() == r.len()
    &&& lab.len() == r.len()
    &&& forall|i: int| 0 <= i < r.len() && (#[trigger] r[i]).children@.len() == 0 ==> keep[i]
}

/// Asks `profile` which records to keep and which to label: a record is
/// kept when the profile keeps it or it has no children, and labelled when
/// the profile labels it, told whether it has no kept child.
pub fn profile_decisions<P: LanguageProfile>(records: &Vec<SyntaxRecord>, profile: &P) -> (d: (Vec<bool>, Vec<bool>))
    requires
        records_wf(records@),
    ensures
        decisions_for(records@, d.0@, d.1@),
{
    let n = records.len();
    let mut keep: Vec<bool> = Vec::new();
    let mut i: usize = 0;
    while i < n
        invariant
            n == records@.len(),
            i <= n,
            keep@.len() == i,
            forall|q: int| 0 <= q < i && (#[trigger] records@[q]).children@.len() == 0 ==> keep@[q],
        decreases n - i,
    {
        let record = &records[i];
        let kept = profile.keep(record.kind.as_str(), record.named) || record.children.len() == 0;
        keep.push(kept);
        i += 1;
    }
    let mut lab: Vec<bool> = Vec::new();
    let mut i: usize = 0;
    while i < n
        invariant
            n == records@.len(),
            keep@.len() == n,
            records_wf(records@),
            i <= n,
            lab@.len() == i,
        decreases n - i,
    {
        let record = &records[i];
        let mut has_kept_child = false;
        let mut k: usize = 0;
        while k < record.children.len()
            invariant
                n == records@.len(),
                keep@.len() == n,
                records_wf(records@),
                i < n,
                *record == records@[i as int],
            decreases record.children@.len() - k,
        {
            let c = record.children[k];
            assert(records@[i as int].children@[k as int] == c);
            if keep[c] {
                has_kept_child = true;
            }
            k += 1;
        }
        lab.push(profile.label(record.kind.as_str(), !has_kept_child));
        i += 1;
    }
    (keep, lab)
}

/// `text` is what the bytes `start..end` of `source` read as: their UTF-8
/// text when the span lies inside the source and is valid UTF-8, and the
/// empty text otherwise.
pub open spec fn span_text(source: Seq<u8>, start: int, end: int, text: Seq<char>) -> bool {
    if 0 <= start <= end <= source.len() && vstd::utf8::valid_utf8(source.subrange(start, end)) {
        vstd::utf8::encode_utf8(text) == source.subrange(start, end)
    } else {
        text.len() == 0
    }
}

/// The text of the bytes `start..end` of `source`, or the empty text when
/// they are not valid UTF-8 or fall outside the source.
fn text_span<'a>(source: &'a [u8], start: usize, end: usize) -> (r: &'a str)
    ensures
        span_text(source@, start as int, end as int, r@),
{
    proof {
        reveal_strlit("");
    }
    if start <= end && end <= source.len() {
        match utf8_str(&source[start..end]) {
            Some(text) => text,
            None => "",
        }
    } else {
        ""
    }
}

} // verus!

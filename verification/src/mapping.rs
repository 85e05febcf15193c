//! Bidirectional mapping between nodes of two trees.
//!
//! A [`Mapping`] is a bijection: each source node maps to at most one
//! destination node and vice versa. [`Mapping::link`] returns `false` when the
//! requested link would violate that invariant.

use std::collections::HashMap;
use vstd::prelude::*;

use crate::tree::NodeId;

verus! {

broadcast use vstd::std_specs::hash::group_hash_axioms;

/// `fwd` and `bwd` are inverse partial maps.
pub open spec fn is_bijection(fwd: Map<usize, usize>, bwd: Map<usize, usize>) -> bool {
    &&& forall|s: usize| #[trigger]
        fwd.contains_key(s) ==> bwd.contains_key(fwd[s]) && bwd[fwd[s]] == s
    &&& forall|d: usize| #[trigger]
        bwd.contains_key(d) ==> fwd.contains_key(bwd[d]) && fwd[bwd[d]] == d
}

/// The source side of a list of pairs.
pub open spec fn firsts(links: Seq<(usize, usize)>) -> Seq<usize> {
    links.map_values(|p: (usize, usize)| p.0)
}

/// The list of links enumerates the forward map, each source once.
pub open spec fn links_enumerate(links: Seq<(usize, usize)>, fwd: Map<usize, usize>) -> bool {
    &&& firsts(links).no_duplicates()
    &&& fwd.dom() == firsts(links).to_set()
    &&& forall|k: int|
        0 <= k < links.len() ==> fwd.contains_key(#[trigger] links[k].0) && fwd[links[k].0]
            == links[k].1
}

#[derive(Debug, Clone)]
pub struct Mapping {
    src_to_dst: HashMap<NodeId, NodeId>,
    dst_to_src: HashMap<NodeId, NodeId>,
    links: Vec<(NodeId, NodeId)>,
}

impl Mapping {
    /// Source to destination.
    pub closed spec fn fwd(&self) -> Map<usize, usize> {
        self.src_to_dst@
    }

    /// Destination to source.
    pub closed spec fn bwd(&self) -> Map<usize, usize> {
        self.dst_to_src@
    }

    /// Every link, in the order it was made.
    pub closed spec fn links(&self) -> Seq<(usize, usize)> {
        self.links@
    }

    /// Well-formedness: a bijection, enumerated by its links.
    pub open spec fn wf(&self) -> bool {
        &&& is_bijection(self.fwd(), self.bwd())
        &&& links_enumerate(self.links(), self.fwd())
    }

    /// Every link joins a node below `n1` to a node below `n2`: the mapping
    /// belongs to two trees of those sizes.
    pub open spec fn fits(&self, n1: nat, n2: nat) -> bool {
        forall|s: usize| #[trigger]
            self.fwd().contains_key(s) ==> s < n1 && self.fwd()[s] < n2
    }

    /// An empty mapping.
    pub fn new() -> (m: Self)
        ensures
            m.wf(),
            m.fwd() == Map::<usize, usize>::empty(),
            m.bwd() == Map::<usize, usize>::empty(),
            m.links() == Seq::<(usize, usize)>::empty(),
    {
        let m = Mapping { src_to_dst: HashMap::new(), dst_to_src: HashMap::new(), links: Vec::new() };
        assert(firsts(m.links@) =~= Seq::<usize>::empty());
        assert(m.src_to_dst@.dom() =~= firsts(m.links@).to_set());
        m
    }

    /// Number of mapped pairs.
    pub fn len(&self) -> (n: usize)
        requires
            self.wf(),
        ensures
            n == self.links().len(),
            n == self.fwd().len(),
    {
        proof {
            firsts(self.links@).unique_seq_to_set();
        }
        self.src_to_dst.len()
    }

    pub fn is_empty(&self) -> (b: bool)
        requires
            self.wf(),
        ensures
            b == (self.links().len() == 0),
    {
        proof {
            firsts(self.links@).unique_seq_to_set();
            if self.src_to_dst@.is_empty() {
                assert(self.src_to_dst@.dom() =~= Set::<usize>::empty());
            }
            if self.links@.len() == 0 {
                assert(firsts(self.links@).to_set() =~= Set::<usize>::empty());
            }
        }
        self.src_to_dst.is_empty()
    }

    /// Attempts to add a link. Returns `true` on success, `false` if either
    /// side is already mapped.
    pub fn link(&mut self, src: NodeId, dst: NodeId) -> (added: bool)
        requires
            old(self).wf(),
        ensures
            final(self).wf(),
            added == !(old(self).fwd().contains_key(src) || old(self).bwd().contains_key(dst)),
            added ==> final(self).fwd() == old(self).fwd().insert(src, dst),
            added ==> final(self).bwd() == old(self).bwd().insert(dst, src),
            added ==> final(self).links() == old(self).links().push((src, dst)),
            !added ==> final(self).fwd() == old(self).fwd(),
            !added ==> final(self).bwd() == old(self).bwd(),
            !added ==> final(self).links() == old(self).links(),
    {
        if self.src_to_dst.contains_key(&src) || self.dst_to_src.contains_key(&dst) {
            return false;
        }
        let ghost old_links = self.links@;
        self.src_to_dst.insert(src, dst);
        self.dst_to_src.insert(dst, src);
        self.links.push((src, dst));
        proof {
            assert(firsts(self.links@) =~= firsts(old_links).push(src));
            assert(!firsts(old_links).contains(src));
            let f0 = firsts(old_links);
            let f1 = firsts(self.links@);
            assert forall|x: usize| f1.to_set().contains(x) <==> f0.to_set().insert(src).contains(x) by {
                if f1.contains(x) && x != src {
                    let k = choose|k: int| 0 <= k < f1.len() && f1[k] == x;
                    assert(k < f0.len());
                    assert(f0[k] == x);
                }
                if f0.contains(x) {
                    let k = choose|k: int| 0 <= k < f0.len() && f0[k] == x;
                    assert(f1[k] == x);
                }
                if x == src {
                    assert(f1[f0.len() as int] == src);
                }
            }
            assert(f1.to_set() =~= f0.to_set().insert(src));
            assert(self.src_to_dst@.dom() =~= firsts(self.links@).to_set());
            assert forall|k: int| 0 <= k < self.links@.len() implies self.src_to_dst@.contains_key(
                #[trigger] self.links@[k].0,
            ) && self.src_to_dst@[self.links@[k].0] == self.links@[k].1 by {
                if k < old_links.len() {
                    assert(self.links@[k] == old_links[k]);
                    assert(firsts(old_links)[k] == old_links[k].0);
                    assert(old_links[k].0 != src);
                }
            }
        }
        true
    }

    /// Looks up the destination corresponding to a source node.
    pub fn get_dst(&self, src: NodeId) -> (r: Option<NodeId>)
        ensures
            r == if self.fwd().contains_key(src) {
                Some(self.fwd()[src])
            } else {
                None
            },
    {
        match self.src_to_dst.get(&src) {
            Some(d) => Some(*d),
            None => None,
        }
    }

    /// Looks up the source corresponding to a destination node.
    pub fn get_src(&self, dst: NodeId) -> (r: Option<NodeId>)
        ensures
            r == if self.bwd().contains_key(dst) {
                Some(self.bwd()[dst])
            } else {
                None
            },
    {
        match self.dst_to_src.get(&dst) {
            Some(s) => Some(*s),
            None => None,
        }
    }

    pub fn has_src(&self, src: NodeId) -> (b: bool)
        ensures
            b == self.fwd().contains_key(src),
    {
        self.src_to_dst.contains_key(&src)
    }

    pub fn has_dst(&self, dst: NodeId) -> (b: bool)
        ensures
            b == self.bwd().contains_key(dst),
    {
        self.dst_to_src.contains_key(&dst)
    }

    /// All `(src, dst)` pairs, in the order they were linked.
    pub fn pairs(&self) -> (r: Vec<(NodeId, NodeId)>)
        ensures
            r@ == self.links(),
    {
        let n = self.links.len();
        let mut out: Vec<(NodeId, NodeId)> = Vec::with_capacity(n);
        let mut k: usize = 0;
        while k < n
            invariant
                n == self.links@.len(),
                k <= n,
                out@ == self.links@.take(k as int),
            decreases n - k,
        {
            out.push(self.links[k]);
            assert(self.links@.take(k + 1) =~= self.links@.take(k as int).push(self.links@[k as int]));
            k += 1;
        }
        assert(self.links@.take(n as int) =~= self.links@);
        out
    }
}

/// Reading a mapping back in either direction gives the same pairs: `s` maps
/// to `d` exactly when `d` maps back to `s`.
pub proof fn lemma_lookup_symmetric(m: Mapping, s: usize, d: usize)
    requires
        m.wf(),
    ensures
        (m.fwd().contains_key(s) && m.fwd()[s] == d) <==> (m.bwd().contains_key(d) && m.bwd()[d]
            == s),
{
}

/// A mapping that fits two trees fits them in both directions.
pub proof fn lemma_fits_backward(m: Mapping, n1: nat, n2: nat)
    requires
        m.wf(),
        m.fits(n1, n2),
    ensures
        forall|d: usize| #[trigger]
            m.bwd().contains_key(d) ==> d < n2 && m.bwd()[d] < n1 && m.fwd().contains_key(m.bwd()[d])
                && m.fwd()[m.bwd()[d]] == d,
{
}

/// Every listed pair is a link of the mapping, and every link is listed
/// exactly once.
pub proof fn lemma_pairs_are_links(m: Mapping)
    requires
        m.wf(),
    ensures
        forall|k: int|
            0 <= k < m.links().len() ==> m.fwd().contains_key(#[trigger] m.links()[k].0) && m.fwd()[m.links()[k].0]
                == m.links()[k].1 && m.bwd().contains_key(m.links()[k].1) && m.bwd()[m.links()[k].1]
                == m.links()[k].0,
        forall|s: usize|
            m.fwd().contains_key(s) ==> exists|k: int|
                0 <= k < m.links().len() && #[trigger] m.links()[k] == (s, m.fwd()[s]),
        firsts(m.links()).no_duplicates(),
{
    assert forall|s: usize| m.fwd().contains_key(s) implies exists|k: int|
        0 <= k < m.links().len() && #[trigger] m.links()[k] == (s, m.fwd()[s]) by {
        assert(firsts(m.links()).to_set().contains(s));
        let k = choose|k: int| 0 <= k < firsts(m.links()).len() && firsts(m.links())[k] == s;
        assert(m.links()[k].0 == s);
    }
}

} // verus!

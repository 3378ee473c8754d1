//! A directed graph over copyable identifiers, with idempotent insertion of
//! nodes and edges and queries for the neighbours of a node.

use vstd::prelude::*;
use vstd::seq_lib::lemma_seq_contains_after_push;
use crate::ident::NodeId;
use crate::index::{last_before, KeyIndex};

verus! {

/// What a graph is, mathematically: its nodes and its edges, each in the order
/// in which they were first inserted.
pub struct GraphView<T> {
    pub nodes: Seq<T>,
    pub edges: Seq<(T, T)>,
}

/// The targets of the edges that leave `n`, in the order of `edges`.
pub open spec fn targets_of<T>(edges: Seq<(T, T)>, n: T) -> Seq<T>
    decreases edges.len(),
{
    if edges.len() == 0 {
        Seq::empty()
    } else {
        let rest = targets_of(edges.drop_last(), n);
        if edges.last().0 == n {
            rest.push(edges.last().1)
        } else {
            rest
        }
    }
}

/// The sources of the edges that arrive at `n`, in the order of `edges`.
pub open spec fn sources_of<T>(edges: Seq<(T, T)>, n: T) -> Seq<T>
    decreases edges.len(),
{
    if edges.len() == 0 {
        Seq::empty()
    } else {
        let rest = sources_of(edges.drop_last(), n);
        if edges.last().1 == n {
            rest.push(edges.last().0)
        } else {
            rest
        }
    }
}

impl<T> GraphView<T> {
    pub open spec fn empty() -> Self {
        GraphView { nodes: Seq::empty(), edges: Seq::empty() }
    }

    /// No node and no edge is recorded twice, and both ends of every edge are
    /// nodes.
    pub open spec fn wf(self) -> bool {
        &&& self.nodes.no_duplicates()
        &&& self.edges.no_duplicates()
        &&& forall|i: int|
            0 <= i < self.edges.len() ==> self.nodes.contains((#[trigger] self.edges[i]).0)
                && self.nodes.contains(self.edges[i].1)
    }

    pub open spec fn has_node(self, n: T) -> bool {
        self.nodes.contains(n)
    }

    pub open spec fn has_edge(self, from: T, to: T) -> bool {
        self.edges.contains((from, to))
    }

    pub open spec fn add_node(self, n: T) -> Self {
        if self.nodes.contains(n) {
            self
        } else {
            GraphView { nodes: self.nodes.push(n), edges: self.edges }
        }
    }

    pub open spec fn add_edge(self, from: T, to: T) -> Self {
        let g = self.add_node(from).add_node(to);
        if g.edges.contains((from, to)) {
            g
        } else {
            GraphView { nodes: g.nodes, edges: g.edges.push((from, to)) }
        }
    }

    pub open spec fn successors(self, n: T) -> Seq<T> {
        targets_of(self.edges, n)
    }

    pub open spec fn predecessors(self, n: T) -> Seq<T> {
        sources_of(self.edges, n)
    }
}

/// Inserting a node keeps a graph well formed.
pub proof fn lemma_add_node_wf<T>(g: GraphView<T>, n: T)
    requires
        g.wf(),
    ensures
        g.add_node(n).wf(),
        g.add_node(n).has_node(n),
        forall|m: T| #[trigger] g.add_node(n).has_node(m) <==> m == n || g.has_node(m),
        forall|a: T, b: T| #[trigger] g.add_node(n).has_edge(a, b) <==> g.has_edge(a, b),
{
    broadcast use lemma_seq_contains_after_push;

    let h = g.add_node(n);
    assert forall|i: int| 0 <= i < h.edges.len() implies h.nodes.contains(
        (#[trigger] h.edges[i]).0,
    ) && h.nodes.contains(h.edges[i].1) by {
        assert(g.nodes.contains(g.edges[i].0) && g.nodes.contains(g.edges[i].1));
    }
}

/// Inserting an edge keeps a graph well formed, makes both of its ends nodes
/// and the edge itself present.
pub proof fn lemma_add_edge_wf<T>(g: GraphView<T>, from: T, to: T)
    requires
        g.wf(),
    ensures
        g.add_edge(from, to).wf(),
        g.add_edge(from, to).has_node(from),
        g.add_edge(from, to).has_node(to),
        g.add_edge(from, to).has_edge(from, to),
        forall|m: T| #[trigger]
            g.add_edge(from, to).has_node(m) <==> m == from || m == to || g.has_node(m),
        forall|a: T, b: T| #[trigger]
            g.add_edge(from, to).has_edge(a, b) <==> (a == from && b == to) || g.has_edge(a, b),
{
    broadcast use lemma_seq_contains_after_push;

    lemma_add_node_wf(g, from);
    lemma_add_node_wf(g.add_node(from), to);
    let m = g.add_node(from).add_node(to);
    let h = g.add_edge(from, to);
    assert(m.has_node(from) && m.has_node(to));
    assert forall|i: int| 0 <= i < h.edges.len() implies h.nodes.contains(
        (#[trigger] h.edges[i]).0,
    ) && h.nodes.contains(h.edges[i].1) by {
        if i < m.edges.len() {
            assert(m.nodes.contains(m.edges[i].0) && m.nodes.contains(m.edges[i].1));
        }
    }
}

/// Edges whose source is not `n` add nothing to the targets of `n`.
pub proof fn lemma_targets_skip<T>(edges: Seq<(T, T)>, n: T, low: int, high: int)
    requires
        0 <= low <= high <= edges.len(),
        forall|j: int| low <= j < high ==> edges[j].0 != n,
    ensures
        targets_of(edges.take(high), n) == targets_of(edges.take(low), n),
    decreases high - low,
{
    if low < high {
        lemma_targets_skip(edges, n, low, high - 1);
        assert(edges.take(high).drop_last() =~= edges.take(high - 1));
    }
}

/// Edges whose target is not `n` add nothing to the sources of `n`.
pub proof fn lemma_sources_skip<T>(edges: Seq<(T, T)>, n: T, low: int, high: int)
    requires
        0 <= low <= high <= edges.len(),
        forall|j: int| low <= j < high ==> edges[j].1 != n,
    ensures
        sources_of(edges.take(high), n) == sources_of(edges.take(low), n),
    decreases high - low,
{
    if low < high {
        lemma_sources_skip(edges, n, low, high - 1);
        assert(edges.take(high).drop_last() =~= edges.take(high - 1));
    }
}

/// A directed graph over identifiers of type `T`. Nodes and edges are kept in
/// the order of their insertion, and are found through indexes over the keys
/// of the identifiers.
pub struct Graph<T: NodeId> {
    nodes: Vec<T>,
    edges: Vec<(T, T)>,
    node_index: KeyIndex,
    out_index: KeyIndex,
    in_index: KeyIndex,
}

impl<T: NodeId> View for Graph<T> {
    type V = GraphView<T>;

    closed spec fn view(&self) -> GraphView<T> {
        GraphView { nodes: self.nodes@, edges: self.edges@ }
    }
}

/// The elements of `found`, last to first.
fn reversed<T: NodeId>(found: &Vec<T>) -> (r: Vec<T>)
    ensures
        r@.len() == found@.len(),
        forall|i: int| 0 <= i < r@.len() ==> r@[i] == found@[found@.len() - 1 - i],
{
    let mut out: Vec<T> = Vec::new();
    let mut i: usize = found.len();
    while i > 0
        invariant
            i <= found@.len(),
            out@.len() == found@.len() - i,
            forall|k: int| 0 <= k < out@.len() ==> out@[k] == found@[found@.len() - 1 - k],
        decreases i,
    {
        i -= 1;
        out.push(found[i]);
    }
    out
}

impl<T: NodeId> Graph<T> {
    /// Each index files the nodes, the sources of the edges and the targets
    /// of the edges under their keys.
    spec fn indexed(&self) -> bool {
        &&& self.node_index.wf()
        &&& self.out_index.wf()
        &&& self.in_index.wf()
        &&& self.node_index.keys().len() == self.nodes@.len()
        &&& self.out_index.keys().len() == self.edges@.len()
        &&& self.in_index.keys().len() == self.edges@.len()
        &&& forall|i: int|
            0 <= i < self.nodes@.len() ==> #[trigger] self.node_index.keys()[i]
                == self.nodes@[i].key()
        &&& forall|i: int|
            0 <= i < self.edges@.len() ==> #[trigger] self.out_index.keys()[i]
                == self.edges@[i].0.key()
        &&& forall|i: int|
            0 <= i < self.edges@.len() ==> #[trigger] self.in_index.keys()[i]
                == self.edges@[i].1.key()
    }

    /// The graph is well formed, and so are its indexes.
    pub closed spec fn wf(&self) -> bool {
        self@.wf() && self.indexed()
    }

    /// A valid graph is a well-formed one.
    pub proof fn lemma_wf(&self)
        requires
            self.wf(),
        ensures
            self@.wf(),
    {
    }

    /// The graph without nodes.
    pub fn new() -> (g: Self)
        ensures
            g.wf(),
            g@ == GraphView::<T>::empty(),
    {
        let g = Graph {
            nodes: Vec::new(),
            edges: Vec::new(),
            node_index: KeyIndex::new(),
            out_index: KeyIndex::new(),
            in_index: KeyIndex::new(),
        };
        assert(g@ =~= GraphView::<T>::empty());
        g
    }

    /// Where among the nodes `n` stands.
    fn node_position(&self, n: &T) -> (r: Option<usize>)
        requires
            self.wf(),
        ensures
            match r {
                Some(i) => i < self.nodes@.len() && self.nodes@[i as int] == *n,
                None => !self.nodes@.contains(*n),
            },
    {
        let key: u64 = n.hash_key();
        let mut candidate: Option<usize> = self.node_index.last(key);
        let ghost mut limit: int = self.nodes@.len() as int;
        loop
            invariant
                self.wf(),
                key == n.key(),
                0 <= limit <= self.nodes@.len(),
                last_before(self.node_index.keys(), key, limit, candidate),
                forall|j: int| limit <= j < self.nodes@.len() ==> self.nodes@[j] != *n,
            decreases limit,
        {
            match candidate {
                None => {
                    proof {
                        assert forall|j: int| 0 <= j < self.nodes@.len() implies self.nodes@[j]
                            != *n by {
                            if j < limit {
                                assert(self.node_index.keys()[j] != key);
                            }
                        }
                    }
                    return None;
                },
                Some(p) => {
                    if self.nodes[p].same(n) {
                        return Some(p);
                    }
                    proof {
                        assert forall|j: int| p <= j < self.nodes@.len() implies self.nodes@[j]
                            != *n by {
                            if p < j < limit {
                                assert(self.node_index.keys()[j] != key);
                            }
                        }
                        limit = p as int;
                    }
                    candidate = self.node_index.before(p);
                },
            }
        }
    }

    /// Where among the edges the one from `from` to `to` stands.
    fn edge_position(&self, from: &T, to: &T) -> (r: Option<usize>)
        requires
            self.wf(),
        ensures
            match r {
                Some(i) => i < self.edges@.len() && self.edges@[i as int] == (*from, *to),
                None => !self.edges@.contains((*from, *to)),
            },
    {
        let key: u64 = from.hash_key();
        let mut candidate: Option<usize> = self.out_index.last(key);
        let ghost mut limit: int = self.edges@.len() as int;
        loop
            invariant
                self.wf(),
                key == from.key(),
                0 <= limit <= self.edges@.len(),
                last_before(self.out_index.keys(), key, limit, candidate),
                forall|j: int| limit <= j < self.edges@.len() ==> self.edges@[j] != (*from, *to),
            decreases limit,
        {
            match candidate {
                None => {
                    proof {
                        assert forall|j: int| 0 <= j < self.edges@.len() implies self.edges@[j] != (
                            *from,
                            *to,
                        ) by {
                            if j < limit {
                                assert(self.out_index.keys()[j] != key);
                            }
                        }
                    }
                    return None;
                },
                Some(p) => {
                    if self.edges[p].0.same(from) && self.edges[p].1.same(to) {
                        return Some(p);
                    }
                    proof {
                        assert forall|j: int| p <= j < self.edges@.len() implies self.edges@[j] != (
                            *from,
                            *to,
                        ) by {
                            if p < j < limit {
                                assert(self.out_index.keys()[j] != key);
                            }
                        }
                        limit = p as int;
                    }
                    candidate = self.out_index.before(p);
                },
            }
        }
    }

    /// Whether `n` is a node.
    pub fn has_node(&self, n: &T) -> (r: bool)
        requires
            self.wf(),
        ensures
            r == self@.has_node(*n),
    {
        self.node_position(n).is_some()
    }

    /// Whether an edge leads from `from` to `to`.
    pub fn has_edge(&self, from: &T, to: &T) -> (r: bool)
        requires
            self.wf(),
        ensures
            r == self@.has_edge(*from, *to),
    {
        self.edge_position(from, to).is_some()
    }

    /// Inserts `n` as a node, unless it is one.
    pub fn add_node(&mut self, n: T)
        requires
            old(self).wf(),
        ensures
            final(self).wf(),
            final(self)@.wf(),
            final(self)@ == old(self)@.add_node(n),
            final(self)@.has_node(n),
    {
        proof {
            lemma_add_node_wf(self@, n);
        }
        if !self.has_node(&n) {
            self.nodes.push(n);
            self.node_index.push(n.hash_key());
        }
        assert(self@ =~= old(self)@.add_node(n));
    }

    /// Inserts `from` and `to` as nodes, unless they are, and then the edge
    /// from `from` to `to`, unless it is there.
    pub fn add_edge(&mut self, from: T, to: T)
        requires
            old(self).wf(),
        ensures
            final(self).wf(),
            final(self)@.wf(),
            final(self)@ == old(self)@.add_edge(from, to),
            final(self)@.has_node(from),
            final(self)@.has_node(to),
            final(self)@.has_edge(from, to),
    {
        proof {
            lemma_add_edge_wf(self@, from, to);
        }
        self.add_node(from);
        self.add_node(to);
        if !self.has_edge(&from, &to) {
            self.edges.push((from, to));
            self.out_index.push(from.hash_key());
            self.in_index.push(to.hash_key());
        }
        assert(self@ =~= old(self)@.add_edge(from, to));
    }

    /// The nodes, in the order of their insertion.
    pub fn nodes(&self) -> (r: Vec<T>)
        ensures
            r@ == self@.nodes,
    {
        let mut out: Vec<T> = Vec::new();
        let mut i: usize = 0;
        while i < self.nodes.len()
            invariant
                i <= self.nodes@.len(),
                out@ == self.nodes@.take(i as int),
            decreases self.nodes@.len() - i,
        {
            out.push(self.nodes[i]);
            assert(out@ =~= self.nodes@.take(i + 1));
            i += 1;
        }
        assert(self.nodes@.take(i as int) =~= self.nodes@);
        out
    }

    /// The number of nodes.
    pub fn node_count(&self) -> (r: usize)
        ensures
            r == self@.nodes.len(),
    {
        self.nodes.len()
    }

    /// The number of edges.
    pub fn edge_count(&self) -> (r: usize)
        ensures
            r == self@.edges.len(),
    {
        self.edges.len()
    }

    /// The nodes to which an edge leads from `n`, in the order in which those
    /// edges were inserted; none where `n` is no node.
    pub fn successors(&self, n: &T) -> (r: Vec<T>)
        requires
            self.wf(),
        ensures
            r@ == self@.successors(*n),
    {
        let ghost all = targets_of(self.edges@, *n);
        let key: u64 = n.hash_key();
        let mut found: Vec<T> = Vec::new();
        let mut candidate: Option<usize> = self.out_index.last(key);
        let ghost mut limit: int = self.edges@.len() as int;
        assert(self.edges@.take(limit) =~= self.edges@);
        loop
            invariant_except_break
                last_before(self.out_index.keys(), key, limit, candidate),
            invariant
                self.wf(),
                key == n.key(),
                all == targets_of(self.edges@, *n),
                0 <= limit <= self.edges@.len(),
                found@.len() <= all.len(),
                targets_of(self.edges@.take(limit), *n) =~= all.take(all.len() - found@.len()),
                forall|i: int| 0 <= i < found@.len() ==> found@[i] == all[all.len() - 1 - i],
            ensures
                found@.len() == all.len(),
            decreases limit,
        {
            match candidate {
                None => {
                    proof {
                        assert forall|j: int| 0 <= j < limit implies self.edges@[j].0 != *n by {
                            assert(self.out_index.keys()[j] != key);
                        }
                        lemma_targets_skip(self.edges@, *n, 0, limit);
                        assert(self.edges@.take(0) =~= Seq::<(T, T)>::empty());
                        assert(targets_of(self.edges@.take(0), *n).len() == 0);
                        assert(all.take(all.len() - found@.len()).len() == 0);
                    }
                    break;
                },
                Some(p) => {
                    proof {
                        assert forall|j: int| p < j < limit implies self.edges@[j].0 != *n by {
                            assert(self.out_index.keys()[j] != key);
                        }
                        lemma_targets_skip(self.edges@, *n, p + 1, limit);
                        assert(self.edges@.take(p + 1).drop_last() =~= self.edges@.take(p as int));
                        assert(self.edges@.take(p + 1).last() == self.edges@[p as int]);
                    }
                    let ghost upper = targets_of(self.edges@.take(p + 1), *n);
                    let ghost lower = targets_of(self.edges@.take(p as int), *n);
                    let ghost rest = all.len() - found@.len();
                    assert(upper =~= all.take(rest));
                    if self.edges[p].0.same(n) {
                        assert(upper == lower.push(self.edges@[p as int].1));
                        assert(upper.len() == rest);
                        assert(all[rest - 1] == upper[rest - 1]);
                        found.push(self.edges[p].1);
                        assert(lower =~= all.take(rest - 1));
                    } else {
                        assert(upper == lower);
                    }
                    proof {
                        limit = p as int;
                    }
                    candidate = self.out_index.before(p);
                },
            }
        }
        let out = reversed(&found);
        assert(out@ =~= all);
        out
    }

    /// The nodes from which an edge leads to `n`, in the order in which those
    /// edges were inserted; none where `n` is no node.
    pub fn predecessors(&self, n: &T) -> (r: Vec<T>)
        requires
            self.wf(),
        ensures
            r@ == self@.predecessors(*n),
    {
        let ghost all = sources_of(self.edges@, *n);
        let key: u64 = n.hash_key();
        let mut found: Vec<T> = Vec::new();
        let mut candidate: Option<usize> = self.in_index.last(key);
        let ghost mut limit: int = self.edges@.len() as int;
        assert(self.edges@.take(limit) =~= self.edges@);
        loop
            invariant_except_break
                last_before(self.in_index.keys(), key, limit, candidate),
            invariant
                self.wf(),
                key == n.key(),
                all == sources_of(self.edges@, *n),
                0 <= limit <= self.edges@.len(),
                found@.len() <= all.len(),
                sources_of(self.edges@.take(limit), *n) =~= all.take(all.len() - found@.len()),
                forall|i: int| 0 <= i < found@.len() ==> found@[i] == all[all.len() - 1 - i],
            ensures
                found@.len() == all.len(),
            decreases limit,
        {
            match candidate {
                None => {
                    proof {
                        assert forall|j: int| 0 <= j < limit implies self.edges@[j].1 != *n by {
                            assert(self.in_index.keys()[j] != key);
                        }
                        lemma_sources_skip(self.edges@, *n, 0, limit);
                        assert(self.edges@.take(0) =~= Seq::<(T, T)>::empty());
                        assert(sources_of(self.edges@.take(0), *n).len() == 0);
                        assert(all.take(all.len() - found@.len()).len() == 0);
                    }
                    break;
                },
                Some(p) => {
                    proof {
                        assert forall|j: int| p < j < limit implies self.edges@[j].1 != *n by {
                            assert(self.in_index.keys()[j] != key);
                        }
                        lemma_sources_skip(self.edges@, *n, p + 1, limit);
                        assert(self.edges@.take(p + 1).drop_last() =~= self.edges@.take(p as int));
                        assert(self.edges@.take(p + 1).last() == self.edges@[p as int]);
                    }
                    let ghost upper = sources_of(self.edges@.take(p + 1), *n);
                    let ghost lower = sources_of(self.edges@.take(p as int), *n);
                    let ghost rest = all.len() - found@.len();
                    assert(upper =~= all.take(rest));
                    if self.edges[p].1.same(n) {
                        assert(upper == lower.push(self.edges@[p as int].0));
                        assert(upper.len() == rest);
                        assert(all[rest - 1] == upper[rest - 1]);
                        found.push(self.edges[p].0);
                        assert(lower =~= all.take(rest - 1));
                    } else {
                        assert(upper == lower);
                    }
                    proof {
                        limit = p as int;
                    }
                    candidate = self.in_index.before(p);
                },
            }
        }
        let out = reversed(&found);
        assert(out@ =~= all);
        out
    }
}

} // verus!

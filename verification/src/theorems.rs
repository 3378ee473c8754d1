//! What holds of graphs in general: how the nodes relate to the identifiers
//! that were ever inserted, that inserting an edge twice is inserting it once,
//! and how the neighbours of a node relate to the edges.

use vstd::prelude::*;
use vstd::seq_lib::{lemma_seq_contains_after_push, seq_to_set_is_finite};
use crate::graph::{lemma_add_edge_wf, lemma_add_node_wf, sources_of, targets_of, GraphView};

verus! {

/// One insertion into a graph.
pub enum GraphOp<T> {
    Node(T),
    Edge(T, T),
}

/// The graph `g` after the insertions `ops`, in order.
pub open spec fn after_ops<T>(g: GraphView<T>, ops: Seq<GraphOp<T>>) -> GraphView<T>
    decreases ops.len(),
{
    if ops.len() == 0 {
        g
    } else {
        let before = after_ops(g, ops.drop_last());
        match ops.last() {
            GraphOp::Node(n) => before.add_node(n),
            GraphOp::Edge(from, to) => before.add_edge(from, to),
        }
    }
}

/// The identifiers that `ops` name, as a node or as an end of an edge.
pub open spec fn named_in<T>(ops: Seq<GraphOp<T>>) -> Set<T>
    decreases ops.len(),
{
    if ops.len() == 0 {
        Set::empty()
    } else {
        let before = named_in(ops.drop_last());
        match ops.last() {
            GraphOp::Node(n) => before.insert(n),
            GraphOp::Edge(from, to) => before.insert(from).insert(to),
        }
    }
}

/// After any insertions into the empty graph, the nodes are exactly the
/// identifiers that the insertions named, each once: the number of nodes is
/// the number of distinct identifiers named.
pub proof fn theorem_nodes_are_identifiers_named<T>(ops: Seq<GraphOp<T>>)
    ensures
        after_ops(GraphView::empty(), ops).wf(),
        forall|n: T| after_ops(GraphView::empty(), ops).has_node(n) <==> named_in(ops).contains(n),
        named_in(ops).finite(),
        after_ops(GraphView::empty(), ops).nodes.len() == named_in(ops).len(),
    decreases ops.len(),
{
    broadcast use seq_to_set_is_finite;

    let g = after_ops(GraphView::<T>::empty(), ops);
    if ops.len() > 0 {
        let before = after_ops(GraphView::<T>::empty(), ops.drop_last());
        theorem_nodes_are_identifiers_named(ops.drop_last());
        match ops.last() {
            GraphOp::Node(n) => {
                lemma_add_node_wf(before, n);
            },
            GraphOp::Edge(from, to) => {
                lemma_add_edge_wf(before, from, to);
            },
        }
    }
    assert forall|n: T| g.has_node(n) <==> named_in(ops).contains(n) by {
        if ops.len() > 0 {
            let before = after_ops(GraphView::<T>::empty(), ops.drop_last());
            assert(before.has_node(n) <==> named_in(ops.drop_last()).contains(n));
        }
    }
    assert forall|n: T| g.nodes.to_set().contains(n) <==> named_in(ops).contains(n) by {
        assert(g.has_node(n) <==> named_in(ops).contains(n));
    }
    assert(g.nodes.to_set() =~= named_in(ops));
    g.nodes.unique_seq_to_set();
}

/// Inserting an edge a second time changes nothing: not the graph, so neither
/// the number of edges nor the successors of its source.
pub proof fn theorem_add_edge_idempotent<T>(g: GraphView<T>, from: T, to: T)
    ensures
        g.add_edge(from, to).add_edge(from, to) == g.add_edge(from, to),
        g.add_edge(from, to).add_edge(from, to).edges.len() == g.add_edge(from, to).edges.len(),
        g.add_edge(from, to).add_edge(from, to).successors(from) == g.add_edge(
            from,
            to,
        ).successors(from),
{
    broadcast use lemma_seq_contains_after_push;

}

/// Inserting a node a second time changes nothing.
pub proof fn theorem_add_node_idempotent<T>(g: GraphView<T>, n: T)
    ensures
        g.add_node(n).add_node(n) == g.add_node(n),
{
    broadcast use lemma_seq_contains_after_push;

}

/// Both ends of an inserted edge are nodes afterwards, whether or not they
/// were before.
pub proof fn theorem_edge_ends_are_nodes<T>(g: GraphView<T>, from: T, to: T)
    ensures
        g.add_edge(from, to).has_node(from),
        g.add_edge(from, to).has_node(to),
        g.add_edge(from, to).has_edge(from, to),
{
    broadcast use lemma_seq_contains_after_push;

}

/// The targets of `n` among `edges` are the second ends of the edges that
/// start at `n`.
pub proof fn lemma_targets_of<T>(edges: Seq<(T, T)>, n: T, m: T)
    ensures
        targets_of(edges, n).contains(m) <==> edges.contains((n, m)),
    decreases edges.len(),
{
    broadcast use lemma_seq_contains_after_push;

    if edges.len() > 0 {
        lemma_targets_of(edges.drop_last(), n, m);
        assert(edges =~= edges.drop_last().push(edges.last()));
    }
}

/// The sources of `n` among `edges` are the first ends of the edges that end
/// at `n`.
pub proof fn lemma_sources_of<T>(edges: Seq<(T, T)>, n: T, m: T)
    ensures
        sources_of(edges, n).contains(m) <==> edges.contains((m, n)),
    decreases edges.len(),
{
    broadcast use lemma_seq_contains_after_push;

    if edges.len() > 0 {
        lemma_sources_of(edges.drop_last(), n, m);
        assert(edges =~= edges.drop_last().push(edges.last()));
    }
}

/// A node is a successor of another exactly where an edge leads from that one
/// to it, and a predecessor exactly where an edge leads from it to that one.
pub proof fn theorem_neighbours_are_edges<T>(g: GraphView<T>, from: T, to: T)
    ensures
        g.successors(from).contains(to) <==> g.has_edge(from, to),
        g.predecessors(to).contains(from) <==> g.has_edge(from, to),
{
    lemma_targets_of(g.edges, from, to);
    lemma_sources_of(g.edges, to, from);
}

/// A new edge is the last successor of its source and the last predecessor of
/// its target; the neighbours of every other node, and all neighbours where
/// the edge was there before, stay as they were.
pub proof fn theorem_add_edge_neighbours<T>(g: GraphView<T>, from: T, to: T, n: T)
    ensures
        g.add_edge(from, to).successors(n) == if n == from && !g.has_edge(from, to) {
            g.successors(n).push(to)
        } else {
            g.successors(n)
        },
        g.add_edge(from, to).predecessors(n) == if n == to && !g.has_edge(from, to) {
            g.predecessors(n).push(from)
        } else {
            g.predecessors(n)
        },
{
    if !g.has_edge(from, to) {
        assert(g.edges.push((from, to)).drop_last() =~= g.edges);
    }
}

} // verus!

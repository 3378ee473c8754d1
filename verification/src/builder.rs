//! Building the funding graph of a range of heights: every transaction of the
//! range is a node, and an edge leads to it from each transaction of which it
//! spends an output.

use vstd::prelude::*;
use crate::graph::{Graph, GraphView};
use crate::ident::{OutPoint, TxId};
use crate::source::{records_view, BlockSource, GraphError, TransactionRecord, TxView};

verus! {

/// The graph `g` after an edge to `id` was inserted for each of `inputs` that
/// spends an output, in order.
pub open spec fn with_inputs(
    g: GraphView<TxId>,
    id: TxId,
    inputs: Seq<Option<OutPoint>>,
) -> GraphView<TxId>
    decreases inputs.len(),
{
    if inputs.len() == 0 {
        g
    } else {
        let before = with_inputs(g, id, inputs.drop_last());
        match inputs.last() {
            Some(spent) => before.add_edge(spent.txid, id),
            None => before,
        }
    }
}

/// The graph `g` after `tx` was inserted as a node, with an edge from each
/// transaction that funds it.
pub open spec fn with_transaction(g: GraphView<TxId>, tx: TxView) -> GraphView<TxId> {
    with_inputs(g.add_node(tx.id), tx.id, tx.inputs)
}

/// The graph `g` after the transactions of a block were inserted, in order.
pub open spec fn with_block(g: GraphView<TxId>, txs: Seq<TxView>) -> GraphView<TxId>
    decreases txs.len(),
{
    if txs.len() == 0 {
        g
    } else {
        with_transaction(with_block(g, txs.drop_last()), txs.last())
    }
}

/// The graph `g` after the blocks at the `count` heights from `start` on were
/// inserted, in ascending order. A height without a block adds nothing.
pub open spec fn with_heights<S: BlockSource>(
    source: &S,
    g: GraphView<TxId>,
    start: u64,
    count: nat,
) -> GraphView<TxId>
    decreases count,
{
    if count == 0 {
        g
    } else {
        let before = with_heights(source, g, start, (count - 1) as nat);
        match source.block((start + count - 1) as u64) {
            Some(txs) => with_block(before, txs),
            None => before,
        }
    }
}

/// The range is in order and ends no higher than the tip.
pub open spec fn range_ok(tip: u64, start_height: u64, end_height: u64) -> bool {
    start_height <= end_height && end_height <= tip
}

/// The source has a block for every height of the range.
pub open spec fn all_available<S: BlockSource>(
    source: &S,
    start_height: u64,
    end_height: u64,
) -> bool {
    forall|h: u64| start_height <= h <= end_height ==> (#[trigger] source.block(h)) is Some
}

/// The funding graph of the heights from `start_height` to `end_height`, both
/// included.
pub open spec fn funding_graph<S: BlockSource>(
    source: &S,
    start_height: u64,
    end_height: u64,
) -> GraphView<TxId> {
    with_heights(
        source,
        GraphView::empty(),
        start_height,
        (end_height - start_height + 1) as nat,
    )
}

/// Tells whether a range of heights can be asked of a chain with the given
/// tip.
pub fn check_range(tip: u64, start_height: u64, end_height: u64) -> (r: Result<(), GraphError>)
    ensures
        r is Ok <==> range_ok(tip, start_height, end_height),
        r is Err ==> r == Err::<(), GraphError>(GraphError::RangeOutOfBounds),
{
    if start_height <= end_height && end_height <= tip {
        Ok(())
    } else {
        Err(GraphError::RangeOutOfBounds)
    }
}

/// Inserts one transaction: itself as a node, and an edge from the funder of
/// each input that spends an output.
pub fn add_transaction(graph: &mut Graph<TxId>, tx: &TransactionRecord)
    requires
        old(graph).wf(),
    ensures
        final(graph).wf(),
        final(graph)@.wf(),
        final(graph)@ == with_transaction(old(graph)@, tx@),
{
    graph.add_node(tx.id);
    proof {
        graph.lemma_wf();
    }
    let mut i: usize = 0;
    while i < tx.inputs.len()
        invariant
            i <= tx.inputs.len(),
            graph.wf(),
            graph@.wf(),
            graph@ == with_inputs(old(graph)@.add_node(tx.id), tx.id, tx.inputs@.take(i as int)),
        decreases tx.inputs.len() - i,
    {
        proof {
            let upto = tx.inputs@.take(i + 1);
            assert(upto.drop_last() =~= tx.inputs@.take(i as int));
            assert(upto.last() == tx.inputs@[i as int]);
        }
        match tx.inputs[i] {
            Some(spent) => {
                graph.add_edge(spent.txid, tx.id);
            },
            None => {},
        }
        i += 1;
    }
    assert(tx.inputs@.take(i as int) =~= tx.inputs@);
}

/// Inserts the transactions of a block, in order.
pub fn add_block(graph: &mut Graph<TxId>, txs: &Vec<TransactionRecord>)
    requires
        old(graph).wf(),
    ensures
        final(graph).wf(),
        final(graph)@.wf(),
        final(graph)@ == with_block(old(graph)@, records_view(txs@)),
{
    let ghost all = records_view(txs@);
    proof {
        graph.lemma_wf();
    }
    let mut i: usize = 0;
    while i < txs.len()
        invariant
            i <= txs.len(),
            all == records_view(txs@),
            graph.wf(),
            graph@.wf(),
            graph@ == with_block(old(graph)@, all.take(i as int)),
        decreases txs.len() - i,
    {
        proof {
            let upto = all.take(i + 1);
            assert(upto.drop_last() =~= all.take(i as int));
            assert(upto.last() == txs@[i as int]@);
        }
        add_transaction(graph, &txs[i]);
        i += 1;
    }
    assert(all.take(i as int) =~= all);
}

/// Builds the funding graph of the heights from `start_height` to
/// `end_height`, both included. A range that is out of order or ends above
/// the source's tip is refused before any block is asked for; otherwise the
/// blocks are taken in ascending order, and the first one that the source
/// cannot give ends the build without a graph.
pub fn build<S: BlockSource>(source: &S, start_height: u64, end_height: u64) -> (r: Result<
    Graph<TxId>,
    GraphError,
>)
    ensures
        match r {
            Ok(g) => {
                &&& range_ok(source.tip(), start_height, end_height)
                &&& all_available(source, start_height, end_height)
                &&& g.wf()
                &&& g@.wf()
                &&& g@ == funding_graph(source, start_height, end_height)
            },
            Err(GraphError::RangeOutOfBounds) => !range_ok(
                source.tip(),
                start_height,
                end_height,
            ),
            Err(GraphError::BlockUnavailable) => {
                &&& range_ok(source.tip(), start_height, end_height)
                &&& !all_available(source, start_height, end_height)
            },
        },
{
    let tip: u64 = source.tip_height();
    match check_range(tip, start_height, end_height) {
        Ok(()) => {},
        Err(e) => {
            return Err(e);
        },
    }
    let mut graph: Graph<TxId> = Graph::new();
    let mut height: u64 = start_height;
    loop
        invariant_except_break
            graph@ == with_heights(
                source,
                GraphView::empty(),
                start_height,
                (height - start_height) as nat,
            ),
            forall|h: u64| start_height <= h < height ==> (#[trigger] source.block(h)) is Some,
        invariant
            range_ok(source.tip(), start_height, end_height),
            start_height <= height <= end_height,
            graph.wf(),
        ensures
            graph@ == funding_graph(source, start_height, end_height),
            all_available(source, start_height, end_height),
        decreases end_height - height,
    {
        match source.transactions_at(height) {
            Ok(txs) => {
                add_block(&mut graph, &txs);
            },
            Err(_) => {
                return Err(GraphError::BlockUnavailable);
            },
        }
        if height == end_height {
            break;
        }
        height += 1;
    }
    proof {
        graph.lemma_wf();
    }
    Ok(graph)
}

} // verus!

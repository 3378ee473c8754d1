//! What a funding graph holds, said without reference to the order in which
//! it was built: an edge for every spend in the range, a node for every
//! transaction of the range and for every funder of one, and nothing else.

use vstd::prelude::*;
use crate::builder::{funding_graph, with_block, with_heights, with_inputs, with_transaction};
use crate::graph::{lemma_add_edge_wf, lemma_add_node_wf, GraphView};
use crate::ident::{OutPoint, TxId};
use crate::source::{BlockSource, TxView};

verus! {

/// The input spends an output of `funder`.
pub open spec fn input_spends_from(input: Option<OutPoint>, funder: TxId) -> bool {
    input is Some && input->0.txid == funder
}

/// One of the inputs spends an output of `funder`.
pub open spec fn inputs_spend_from(inputs: Seq<Option<OutPoint>>, funder: TxId) -> bool {
    exists|j: int| 0 <= j < inputs.len() && input_spends_from(#[trigger] inputs[j], funder)
}

/// The transaction is `spender` and spends an output of `funder`.
pub open spec fn tx_funded_by(tx: TxView, funder: TxId, spender: TxId) -> bool {
    tx.id == spender && inputs_spend_from(tx.inputs, funder)
}

/// The transaction is `n` or spends an output of `n`.
pub open spec fn tx_names(tx: TxView, n: TxId) -> bool {
    tx.id == n || inputs_spend_from(tx.inputs, n)
}

/// In the block, `spender` spends an output of `funder`.
pub open spec fn block_funds(txs: Seq<TxView>, funder: TxId, spender: TxId) -> bool {
    exists|i: int| 0 <= i < txs.len() && tx_funded_by(#[trigger] txs[i], funder, spender)
}

/// The block holds `n`, or a transaction that spends an output of `n`.
pub open spec fn block_names(txs: Seq<TxView>, n: TxId) -> bool {
    exists|i: int| 0 <= i < txs.len() && tx_names(#[trigger] txs[i], n)
}

/// The source's block at `height` shows `spender` spending an output of
/// `funder`.
pub open spec fn height_funds<S: BlockSource>(
    source: &S,
    height: u64,
    funder: TxId,
    spender: TxId,
) -> bool {
    source.block(height) is Some && block_funds(source.block(height)->0, funder, spender)
}

/// The source's block at `height` holds `n` or a transaction that spends an
/// output of `n`.
pub open spec fn height_names<S: BlockSource>(source: &S, height: u64, n: TxId) -> bool {
    source.block(height) is Some && block_names(source.block(height)->0, n)
}

/// At a height from `start` up to, but without, `beyond`, `spender` spends an
/// output of `funder`.
pub open spec fn range_funds<S: BlockSource>(
    source: &S,
    start: u64,
    beyond: int,
    funder: TxId,
    spender: TxId,
) -> bool {
    exists|h: u64| start <= h < beyond && #[trigger] height_funds(source, h, funder, spender)
}

/// At a height from `start` up to, but without, `beyond`, a block holds `n` or
/// a transaction that spends an output of `n`.
pub open spec fn range_names<S: BlockSource>(source: &S, start: u64, beyond: int, n: TxId) -> bool {
    exists|h: u64| start <= h < beyond && #[trigger] height_names(source, h, n)
}

proof fn lemma_inputs_split(inputs: Seq<Option<OutPoint>>, funder: TxId)
    requires
        inputs.len() > 0,
    ensures
        inputs_spend_from(inputs, funder) <==> inputs_spend_from(inputs.drop_last(), funder)
            || input_spends_from(inputs.last(), funder),
{
    let front = inputs.drop_last();
    if inputs_spend_from(inputs, funder) {
        let j = choose|j: int| 0 <= j < inputs.len() && input_spends_from(#[trigger] inputs[j], funder);
        if j < front.len() {
            assert(input_spends_from(front[j], funder));
        }
    }
    if inputs_spend_from(front, funder) {
        let j = choose|j: int| 0 <= j < front.len() && input_spends_from(#[trigger] front[j], funder);
        assert(input_spends_from(inputs[j], funder));
    }
    if input_spends_from(inputs.last(), funder) {
        assert(input_spends_from(inputs[inputs.len() - 1], funder));
    }
}

proof fn lemma_block_split(txs: Seq<TxView>, a: TxId, b: TxId)
    requires
        txs.len() > 0,
    ensures
        block_funds(txs, a, b) <==> block_funds(txs.drop_last(), a, b) || tx_funded_by(
            txs.last(),
            a,
            b,
        ),
        block_names(txs, a) <==> block_names(txs.drop_last(), a) || tx_names(txs.last(), a),
{
    let front = txs.drop_last();
    if block_funds(txs, a, b) {
        let i = choose|i: int| 0 <= i < txs.len() && tx_funded_by(#[trigger] txs[i], a, b);
        if i < front.len() {
            assert(tx_funded_by(front[i], a, b));
        }
    }
    if block_funds(front, a, b) {
        let i = choose|i: int| 0 <= i < front.len() && tx_funded_by(#[trigger] front[i], a, b);
        assert(tx_funded_by(txs[i], a, b));
    }
    if tx_funded_by(txs.last(), a, b) {
        assert(tx_funded_by(txs[txs.len() - 1], a, b));
    }
    if block_names(txs, a) {
        let i = choose|i: int| 0 <= i < txs.len() && tx_names(#[trigger] txs[i], a);
        if i < front.len() {
            assert(tx_names(front[i], a));
        }
    }
    if block_names(front, a) {
        let i = choose|i: int| 0 <= i < front.len() && tx_names(#[trigger] front[i], a);
        assert(tx_names(txs[i], a));
    }
    if tx_names(txs.last(), a) {
        assert(tx_names(txs[txs.len() - 1], a));
    }
}

proof fn lemma_range_split<S: BlockSource>(source: &S, start: u64, beyond: int, a: TxId, b: TxId)
    requires
        start < beyond <= u64::MAX + 1,
    ensures
        range_funds(source, start, beyond, a, b) <==> range_funds(source, start, beyond - 1, a, b)
            || height_funds(source, (beyond - 1) as u64, a, b),
        range_names(source, start, beyond, a) <==> range_names(source, start, beyond - 1, a)
            || height_names(source, (beyond - 1) as u64, a),
{
    let top = (beyond - 1) as u64;
    if range_funds(source, start, beyond, a, b) {
        let h = choose|h: u64| start <= h < beyond && #[trigger] height_funds(source, h, a, b);
        if h != top {
            assert(start <= h < beyond - 1 && height_funds(source, h, a, b));
        }
    }
    if range_funds(source, start, beyond - 1, a, b) {
        let h = choose|h: u64| start <= h < beyond - 1 && #[trigger] height_funds(source, h, a, b);
        assert(start <= h < beyond && height_funds(source, h, a, b));
    }
    if height_funds(source, top, a, b) {
        assert(start <= top < beyond);
    }
    if range_names(source, start, beyond, a) {
        let h = choose|h: u64| start <= h < beyond && #[trigger] height_names(source, h, a);
        if h != top {
            assert(start <= h < beyond - 1 && height_names(source, h, a));
        }
    }
    if range_names(source, start, beyond - 1, a) {
        let h = choose|h: u64| start <= h < beyond - 1 && #[trigger] height_names(source, h, a);
        assert(start <= h < beyond && height_names(source, h, a));
    }
    if height_names(source, top, a) {
        assert(start <= top < beyond);
    }
}

/// Inserting the funding edges of a transaction that is a node already adds
/// an edge from each funder, a node for each funder, and nothing else.
pub proof fn lemma_with_inputs(g: GraphView<TxId>, id: TxId, inputs: Seq<Option<OutPoint>>)
    requires
        g.wf(),
        g.has_node(id),
    ensures
        with_inputs(g, id, inputs).wf(),
        forall|a: TxId, b: TxId| #[trigger]
            with_inputs(g, id, inputs).has_edge(a, b) <==> g.has_edge(a, b) || (b == id
                && inputs_spend_from(inputs, a)),
        forall|n: TxId| #[trigger]
            with_inputs(g, id, inputs).has_node(n) <==> g.has_node(n) || inputs_spend_from(
                inputs,
                n,
            ),
    decreases inputs.len(),
{
    let r = with_inputs(g, id, inputs);
    if inputs.len() > 0 {
        let before = with_inputs(g, id, inputs.drop_last());
        lemma_with_inputs(g, id, inputs.drop_last());
        match inputs.last() {
            Some(spent) => {
                lemma_add_edge_wf(before, spent.txid, id);
            },
            None => {},
        }
        assert forall|a: TxId, b: TxId| #[trigger]
            r.has_edge(a, b) <==> g.has_edge(a, b) || (b == id && inputs_spend_from(
                inputs,
                a,
            )) by {
            lemma_inputs_split(inputs, a);
            assert(before.has_edge(a, b) <==> g.has_edge(a, b) || (b == id && inputs_spend_from(
                inputs.drop_last(),
                a,
            )));
        }
        assert forall|n: TxId| #[trigger]
            r.has_node(n) <==> g.has_node(n) || inputs_spend_from(inputs, n) by {
            lemma_inputs_split(inputs, n);
            assert(before.has_node(n) <==> g.has_node(n) || inputs_spend_from(
                inputs.drop_last(),
                n,
            ));
            assert(before.has_node(id));
        }
    } else {
        assert forall|a: TxId| !inputs_spend_from(inputs, a) by {}
    }
}

/// Inserting a block adds an edge for every spend that it shows, a node for
/// every transaction in it and every funder of one, and nothing else.
pub proof fn lemma_with_block(g: GraphView<TxId>, txs: Seq<TxView>)
    requires
        g.wf(),
    ensures
        with_block(g, txs).wf(),
        forall|a: TxId, b: TxId| #[trigger]
            with_block(g, txs).has_edge(a, b) <==> g.has_edge(a, b) || block_funds(txs, a, b),
        forall|n: TxId| #[trigger]
            with_block(g, txs).has_node(n) <==> g.has_node(n) || block_names(txs, n),
    decreases txs.len(),
{
    let r = with_block(g, txs);
    if txs.len() > 0 {
        let before = with_block(g, txs.drop_last());
        let tx = txs.last();
        lemma_with_block(g, txs.drop_last());
        lemma_add_node_wf(before, tx.id);
        assert(before.add_node(tx.id).has_node(tx.id));
        lemma_with_inputs(before.add_node(tx.id), tx.id, tx.inputs);
        assert(r == with_transaction(before, tx));
        assert forall|a: TxId, b: TxId| #[trigger]
            r.has_edge(a, b) <==> g.has_edge(a, b) || block_funds(txs, a, b) by {
            lemma_block_split(txs, a, b);
            assert(before.has_edge(a, b) <==> g.has_edge(a, b) || block_funds(
                txs.drop_last(),
                a,
                b,
            ));
            assert(before.add_node(tx.id).has_edge(a, b) <==> before.has_edge(a, b));
        }
        assert forall|n: TxId| #[trigger]
            r.has_node(n) <==> g.has_node(n) || block_names(txs, n) by {
            lemma_block_split(txs, n, n);
            assert(before.has_node(n) <==> g.has_node(n) || block_names(txs.drop_last(), n));
            assert(before.add_node(tx.id).has_node(n) <==> n == tx.id || before.has_node(n));
        }
    } else {
        assert forall|a: TxId, b: TxId| !block_funds(txs, a, b) by {}
        assert forall|n: TxId| !block_names(txs, n) by {}
    }
}

/// Inserting the blocks of a run of heights adds an edge for every spend that
/// one of them shows, a node for every transaction in them and every funder
/// of one, and nothing else.
pub proof fn lemma_with_heights<S: BlockSource>(
    source: &S,
    g: GraphView<TxId>,
    start: u64,
    count: nat,
)
    requires
        g.wf(),
        start + count <= u64::MAX + 1,
    ensures
        with_heights(source, g, start, count).wf(),
        forall|a: TxId, b: TxId| #[trigger]
            with_heights(source, g, start, count).has_edge(a, b) <==> g.has_edge(a, b)
                || range_funds(source, start, start + count, a, b),
        forall|n: TxId| #[trigger]
            with_heights(source, g, start, count).has_node(n) <==> g.has_node(n) || range_names(
                source,
                start,
                start + count,
                n,
            ),
    decreases count,
{
    let r = with_heights(source, g, start, count);
    if count > 0 {
        let before = with_heights(source, g, start, (count - 1) as nat);
        let top = (start + count - 1) as u64;
        lemma_with_heights(source, g, start, (count - 1) as nat);
        match source.block(top) {
            Some(txs) => {
                lemma_with_block(before, txs);
            },
            None => {},
        }
        assert forall|a: TxId, b: TxId| #[trigger]
            r.has_edge(a, b) <==> g.has_edge(a, b) || range_funds(
                source,
                start,
                start + count,
                a,
                b,
            ) by {
            lemma_range_split(source, start, start + count, a, b);
            assert(before.has_edge(a, b) <==> g.has_edge(a, b) || range_funds(
                source,
                start,
                start + count - 1,
                a,
                b,
            ));
        }
        assert forall|n: TxId| #[trigger]
            r.has_node(n) <==> g.has_node(n) || range_names(source, start, start + count, n) by {
            lemma_range_split(source, start, start + count, n, n);
            assert(before.has_node(n) <==> g.has_node(n) || range_names(
                source,
                start,
                start + count - 1,
                n,
            ));
        }
    } else {
        let beyond: int = start + count;
        assert forall|a: TxId, b: TxId| !#[trigger] range_funds(source, start, beyond, a, b) by {}
        assert forall|n: TxId| !#[trigger] range_names(source, start, beyond, n) by {}
    }
}

/// Funding edges that the graph holds already change nothing.
pub proof fn lemma_inputs_absorbed(g: GraphView<TxId>, id: TxId, inputs: Seq<Option<OutPoint>>)
    requires
        g.has_node(id),
        forall|a: TxId| #[trigger]
            inputs_spend_from(inputs, a) ==> g.has_node(a) && g.has_edge(a, id),
    ensures
        with_inputs(g, id, inputs) == g,
    decreases inputs.len(),
{
    if inputs.len() > 0 {
        assert forall|a: TxId| #[trigger]
            inputs_spend_from(inputs.drop_last(), a) implies g.has_node(a) && g.has_edge(
            a,
            id,
        ) by {
            lemma_inputs_split(inputs, a);
        }
        lemma_inputs_absorbed(g, id, inputs.drop_last());
        match inputs.last() {
            Some(spent) => {
                lemma_inputs_split(inputs, spent.txid);
                assert(inputs_spend_from(inputs, spent.txid));
            },
            None => {},
        }
    }
}

/// A block whose transactions, funders and spends the graph holds already
/// changes nothing.
pub proof fn lemma_block_absorbed(g: GraphView<TxId>, txs: Seq<TxView>)
    requires
        forall|n: TxId| #[trigger] block_names(txs, n) ==> g.has_node(n),
        forall|a: TxId, b: TxId| #[trigger] block_funds(txs, a, b) ==> g.has_edge(a, b),
    ensures
        with_block(g, txs) == g,
    decreases txs.len(),
{
    if txs.len() > 0 {
        let tx = txs.last();
        assert forall|n: TxId| #[trigger] block_names(txs.drop_last(), n) implies g.has_node(
            n,
        ) by {
            lemma_block_split(txs, n, n);
        }
        assert forall|a: TxId, b: TxId| #[trigger]
            block_funds(txs.drop_last(), a, b) implies g.has_edge(a, b) by {
            lemma_block_split(txs, a, b);
        }
        lemma_block_absorbed(g, txs.drop_last());
        lemma_block_split(txs, tx.id, tx.id);
        assert(block_names(txs, tx.id));
        assert(g.add_node(tx.id) == g);
        assert forall|a: TxId| #[trigger] inputs_spend_from(tx.inputs, a) implies g.has_node(a)
            && g.has_edge(a, tx.id) by {
            lemma_block_split(txs, a, tx.id);
            lemma_block_split(txs, a, a);
            assert(block_names(txs, a));
            assert(block_funds(txs, a, tx.id));
        }
        lemma_inputs_absorbed(g, tx.id, tx.inputs);
    }
}

/// Inserting a block a second time changes nothing.
pub proof fn theorem_block_twice(g: GraphView<TxId>, txs: Seq<TxView>)
    requires
        g.wf(),
    ensures
        with_block(with_block(g, txs), txs) == with_block(g, txs),
{
    lemma_with_block(g, txs);
    let once = with_block(g, txs);
    assert forall|n: TxId| #[trigger] block_names(txs, n) implies once.has_node(n) by {}
    assert forall|a: TxId, b: TxId| #[trigger] block_funds(txs, a, b) implies once.has_edge(
        a,
        b,
    ) by {}
    lemma_block_absorbed(once, txs);
}

/// The funding graph of a range is well formed. It has an edge from one
/// transaction to another exactly where, in a block of the range, the second
/// spends an output of the first; and its nodes are exactly the transactions
/// in the blocks of the range and the transactions of which one of those
/// spends an output.
pub proof fn theorem_funding_graph_meaning<S: BlockSource>(
    source: &S,
    start_height: u64,
    end_height: u64,
)
    requires
        start_height <= end_height,
    ensures
        funding_graph(source, start_height, end_height).wf(),
        forall|funder: TxId, spender: TxId| #[trigger]
            funding_graph(source, start_height, end_height).has_edge(funder, spender)
                <==> range_funds(source, start_height, end_height + 1, funder, spender),
        forall|n: TxId| #[trigger]
            funding_graph(source, start_height, end_height).has_node(n) <==> range_names(
                source,
                start_height,
                end_height + 1,
                n,
            ),
{
    let count = (end_height - start_height + 1) as nat;
    lemma_with_heights(source, GraphView::empty(), start_height, count);
    assert(start_height + count == end_height + 1);
}

/// The spends that the blocks of a range show, each as a pair of funder and
/// spender.
pub open spec fn spends_in_range<S: BlockSource>(
    source: &S,
    start_height: u64,
    end_height: u64,
) -> Set<(TxId, TxId)> {
    Set::new(|e: (TxId, TxId)| range_funds(source, start_height, end_height + 1, e.0, e.1))
}

/// The transactions that the blocks of a range hold or show as funders.
pub open spec fn named_in_range<S: BlockSource>(
    source: &S,
    start_height: u64,
    end_height: u64,
) -> Set<TxId> {
    Set::new(|n: TxId| range_names(source, start_height, end_height + 1, n))
}

/// The funding graph of a range has as many edges as the range shows pairs
/// of funder and spender, however many outputs of the funder the spender
/// spends, and as many nodes as the range names transactions.
pub proof fn theorem_funding_graph_counts<S: BlockSource>(
    source: &S,
    start_height: u64,
    end_height: u64,
)
    requires
        start_height <= end_height,
    ensures
        funding_graph(source, start_height, end_height).edges.to_set() == spends_in_range(
            source,
            start_height,
            end_height,
        ),
        funding_graph(source, start_height, end_height).nodes.to_set() == named_in_range(
            source,
            start_height,
            end_height,
        ),
        funding_graph(source, start_height, end_height).edges.len() == spends_in_range(
            source,
            start_height,
            end_height,
        ).len(),
        funding_graph(source, start_height, end_height).nodes.len() == named_in_range(
            source,
            start_height,
            end_height,
        ).len(),
{
    let g = funding_graph(source, start_height, end_height);
    theorem_funding_graph_meaning(source, start_height, end_height);
    assert forall|e: (TxId, TxId)|
        g.edges.to_set().contains(e) <==> spends_in_range(
            source,
            start_height,
            end_height,
        ).contains(e) by {
        assert(g.has_edge(e.0, e.1) <==> range_funds(
            source,
            start_height,
            end_height + 1,
            e.0,
            e.1,
        ));
        assert((e.0, e.1) == e);
    }
    assert(g.edges.to_set() =~= spends_in_range(source, start_height, end_height));
    assert forall|n: TxId|
        g.nodes.to_set().contains(n) <==> named_in_range(
            source,
            start_height,
            end_height,
        ).contains(n) by {
        assert(g.has_node(n) <==> range_names(source, start_height, end_height + 1, n));
    }
    assert(g.nodes.to_set() =~= named_in_range(source, start_height, end_height));
    g.edges.unique_seq_to_set();
    g.nodes.unique_seq_to_set();
}

} // verus!

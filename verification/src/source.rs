//! Where blocks come from: the record of a transaction, the capability that
//! hands out the transactions of a block, and a source held in memory.

use vstd::prelude::*;
use vstd::hash_map::HashMapWithView;
use vstd::std_specs::hash::axiom_u64_obeys_hash_table_key_model;
use crate::ident::{OutPoint, TxId};

verus! {

/// Why a funding graph could not be built.
#[derive(Clone, Copy, Debug, PartialEq, Eq, Structural)]
pub enum GraphError {
    /// The first height lies above the last, or the last above the tip.
    RangeOutOfBounds,
    /// The source has no block for a height of the range.
    BlockUnavailable,
}

/// What a transaction record says: the transaction's identifier, its inputs in
/// order (`None` for an input that spends no output, as in a coinbase), and
/// the number of its outputs.
pub struct TxView {
    pub id: TxId,
    pub inputs: Seq<Option<OutPoint>>,
    pub output_count: usize,
}

/// A transaction as a block source reports it.
#[derive(Debug)]
pub struct TransactionRecord {
    pub id: TxId,
    pub inputs: Vec<Option<OutPoint>>,
    pub output_count: usize,
}

impl View for TransactionRecord {
    type V = TxView;

    open spec fn view(&self) -> TxView {
        TxView { id: self.id, inputs: self.inputs@, output_count: self.output_count }
    }
}

/// The transactions of a block, each by what it says.
pub open spec fn records_view(txs: Seq<TransactionRecord>) -> Seq<TxView> {
    Seq::new(txs.len(), |i: int| txs[i]@)
}

impl TransactionRecord {
    /// The record of a transaction with the given identifier, whose inputs
    /// hold the given references, in order, and which has `output_count`
    /// outputs.
    pub fn from_references(id: TxId, references: &Vec<(TxId, u32)>, output_count: usize) -> (r:
        TransactionRecord)
        ensures
            r@.id == id,
            r@.output_count == output_count,
            r@.inputs.len() == references@.len(),
            forall|k: int|
                0 <= k < references@.len() ==> r@.inputs[k] == OutPoint::spent_by(
                    references@[k].0,
                    references@[k].1,
                ),
    {
        let mut inputs: Vec<Option<OutPoint>> = Vec::new();
        let mut i: usize = 0;
        while i < references.len()
            invariant
                i <= references.len(),
                inputs@.len() == i,
                forall|k: int|
                    0 <= k < i ==> inputs@[k] == OutPoint::spent_by(
                        references@[k].0,
                        references@[k].1,
                    ),
            decreases references.len() - i,
        {
            inputs.push(OutPoint::spent(references[i].0, references[i].1));
            i += 1;
        }
        TransactionRecord { id, inputs, output_count }
    }

    /// A separate record that says the same.
    pub fn duplicate(&self) -> (r: TransactionRecord)
        ensures
            r@ == self@,
    {
        let mut inputs: Vec<Option<OutPoint>> = Vec::new();
        let mut i: usize = 0;
        while i < self.inputs.len()
            invariant
                i <= self.inputs.len(),
                inputs@ == self.inputs@.take(i as int),
            decreases self.inputs.len() - i,
        {
            inputs.push(self.inputs[i]);
            assert(inputs@ =~= self.inputs@.take(i + 1));
            i += 1;
        }
        assert(inputs@ =~= self.inputs@);
        TransactionRecord { id: self.id, inputs, output_count: self.output_count }
    }
}

/// Separate records that say the same as `txs`, in the same order.
pub fn duplicate_records(txs: &Vec<TransactionRecord>) -> (r: Vec<TransactionRecord>)
    ensures
        records_view(r@) == records_view(txs@),
{
    let mut out: Vec<TransactionRecord> = Vec::new();
    let mut i: usize = 0;
    while i < txs.len()
        invariant
            i <= txs.len(),
            out@.len() == i,
            forall|k: int| 0 <= k < i ==> out@[k]@ == txs@[k]@,
        decreases txs.len() - i,
    {
        out.push(txs[i].duplicate());
        i += 1;
    }
    assert(records_view(out@) =~= records_view(txs@));
    out
}

/// A source of blocks. What it reports is fixed: `tip` is the height of its
/// highest block and `block` gives the transactions of the block at a height,
/// or `None` where it has none to give.
pub trait BlockSource {
    spec fn tip(&self) -> u64;

    spec fn block(&self, height: u64) -> Option<Seq<TxView>>;

    fn tip_height(&self) -> (r: u64)
        ensures
            r == self.tip(),
    ;

    fn transactions_at(&self, height: u64) -> (r: Result<Vec<TransactionRecord>, GraphError>)
        ensures
            match r {
                Ok(txs) => self.block(height) == Some(records_view(txs@)),
                Err(e) => self.block(height) is None && e == GraphError::BlockUnavailable,
            },
    ;
}

/// A block source held in memory: a tip height and the blocks recorded for
/// some heights. A height for which nothing was recorded is unavailable.
pub struct MemoryChain {
    tip: u64,
    blocks: HashMapWithView<u64, Vec<TransactionRecord>>,
}

impl MemoryChain {
    /// A source with the given tip and no block.
    pub fn new(tip: u64) -> (r: MemoryChain)
        ensures
            r.tip() == tip,
            forall|h: u64| r.block(h) is None,
    {
        broadcast use axiom_u64_obeys_hash_table_key_model;

        MemoryChain { tip, blocks: HashMapWithView::new() }
    }

    /// Records `txs` as the block at `height`, in place of what was recorded
    /// for that height before.
    pub fn record_block(&mut self, height: u64, txs: Vec<TransactionRecord>)
        ensures
            final(self).tip() == old(self).tip(),
            final(self).block(height) == Some(records_view(txs@)),
            forall|h: u64| h != height ==> final(self).block(h) == old(self).block(h),
    {
        self.blocks.insert(height, txs);
    }
}

impl BlockSource for MemoryChain {
    closed spec fn tip(&self) -> u64 {
        self.tip
    }

    closed spec fn block(&self, height: u64) -> Option<Seq<TxView>> {
        if self.blocks@.contains_key(height) {
            Some(records_view(self.blocks@[height]@))
        } else {
            None
        }
    }

    fn tip_height(&self) -> (r: u64) {
        self.tip
    }

    fn transactions_at(&self, height: u64) -> (r: Result<Vec<TransactionRecord>, GraphError>) {
        match self.blocks.get(&height) {
            Some(txs) => Ok(duplicate_records(txs)),
            None => Err(GraphError::BlockUnavailable),
        }
    }
}

} // verus!

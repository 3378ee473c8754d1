//! Identifiers: what a graph node must offer, and the identifiers of
//! transactions and of their outputs.

use vstd::prelude::*;

verus! {

/// A value that can name a node of a graph: freely copied, and comparable by an
/// executable test that agrees with mathematical equality.
///
/// Each value has a 64-bit key under which it is filed; values that are
/// equal have the same key, and the fewer unequal values share one, the
/// faster a value is found.
pub trait NodeId: Copy + Sized {
    spec fn key(self) -> u64;

    fn same(&self, other: &Self) -> (r: bool)
        ensures
            r == (*self == *other),
    ;

    fn hash_key(&self) -> (r: u64)
        ensures
            r == self.key(),
    ;
}

impl NodeId for u64 {
    open spec fn key(self) -> u64 {
        self
    }

    fn same(&self, other: &Self) -> (r: bool) {
        *self == *other
    }

    fn hash_key(&self) -> (r: u64) {
        *self
    }
}

/// The identifier of a transaction: the 32 bytes of its digest.
#[derive(Clone, Copy, Debug, PartialEq, Eq, Hash, PartialOrd, Ord)]
pub struct TxId {
    pub bytes: [u8; 32],
}

impl TxId {
    /// The identifier with the given bytes.
    pub fn new(bytes: [u8; 32]) -> (r: TxId)
        ensures
            r.bytes == bytes,
    {
        TxId { bytes }
    }

    /// The bytes of the identifier.
    pub fn to_bytes(&self) -> (r: [u8; 32])
        ensures
            r == self.bytes,
    {
        self.bytes
    }

    /// Every byte is zero.
    pub open spec fn all_zero(self) -> bool {
        forall|k: int| 0 <= k < 32 ==> self.bytes[k] == 0
    }

    /// Whether every byte is zero.
    pub fn is_all_zero(&self) -> (r: bool)
        ensures
            r == self.all_zero(),
    {
        let mut i: usize = 0;
        while i < 32
            invariant
                i <= 32,
                forall|k: int| 0 <= k < i ==> self.bytes[k] == 0,
            decreases 32 - i,
        {
            if self.bytes[i] != 0 {
                return false;
            }
            i += 1;
        }
        true
    }
}

impl NodeId for TxId {
    /// The first eight bytes, the first of them lowest.
    open spec fn key(self) -> u64 {
        (self.bytes[0] as int + 256 * (self.bytes[1] as int + 256 * (self.bytes[2] as int + 256
            * (self.bytes[3] as int + 256 * (self.bytes[4] as int + 256 * (self.bytes[5] as int
            + 256 * (self.bytes[6] as int + 256 * (self.bytes[7] as int)))))))) as u64
    }

    fn hash_key(&self) -> (r: u64) {
        let mut k: u64 = self.bytes[7] as u64;
        k = k * 256 + self.bytes[6] as u64;
        k = k * 256 + self.bytes[5] as u64;
        k = k * 256 + self.bytes[4] as u64;
        k = k * 256 + self.bytes[3] as u64;
        k = k * 256 + self.bytes[2] as u64;
        k = k * 256 + self.bytes[1] as u64;
        k = k * 256 + self.bytes[0] as u64;
        k
    }

    fn same(&self, other: &Self) -> (r: bool) {
        let mut i: usize = 0;
        while i < 32
            invariant
                i <= 32,
                forall|k: int| 0 <= k < i ==> self.bytes[k] == other.bytes[k],
            decreases 32 - i,
        {
            if self.bytes[i] != other.bytes[i] {
                return false;
            }
            i += 1;
        }
        proof {
            assert(self.bytes@ =~= other.bytes@);
            assert(self.bytes == other.bytes);
        }
        true
    }
}

/// A reference to one output of a transaction: the transaction and the
/// position of the output in it.
#[derive(Clone, Copy, Debug, PartialEq, Eq, Hash)]
pub struct OutPoint {
    pub txid: TxId,
    pub index: u32,
}

impl OutPoint {
    /// What an input holds in place of a reference when it spends no output,
    /// as the input of a coinbase does: an identifier of zeros with the
    /// highest index.
    pub open spec fn is_null_reference(txid: TxId, index: u32) -> bool {
        txid.all_zero() && index == u32::MAX
    }

    /// The output that an input spends, read from the reference that the
    /// input holds: none for the null reference, else the output named.
    pub open spec fn spent_by(txid: TxId, index: u32) -> Option<OutPoint> {
        if Self::is_null_reference(txid, index) {
            None
        } else {
            Some(OutPoint { txid, index })
        }
    }

    /// The output that an input with the reference `txid`, `index` spends.
    pub fn spent(txid: TxId, index: u32) -> (r: Option<OutPoint>)
        ensures
            r == Self::spent_by(txid, index),
    {
        if index == u32::MAX && txid.is_all_zero() {
            None
        } else {
            Some(OutPoint { txid, index })
        }
    }
}

} // verus!

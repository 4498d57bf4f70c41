use vstd::prelude::*;

verus! {

/// One emitted event record: the emitting contract, its topic words and its
/// payload.
pub struct Log {
    pub address: Vec<u8>,
    pub topics: Vec<Vec<u8>>,
    pub data: Vec<u8>,
}

/// A transaction of a block, identified by its hash.
pub struct Transaction {
    pub hash: Vec<u8>,
}

/// The execution outcome of one transaction: the logs it emitted, in order.
pub struct Receipt {
    pub logs: Vec<Log>,
}

/// A block: its header timestamp, its transactions, and one receipt per
/// transaction at the same index.
pub struct Block {
    pub timestamp: u64,
    pub transactions: Vec<Transaction>,
    pub receipts: Vec<Receipt>,
}

/// A contiguous run of committed blocks, delivered together.
pub struct ChainSegment {
    pub blocks: Vec<Block>,
}

impl Block {
    /// A well-formed block holds one receipt per transaction.
    pub open spec fn wf(&self) -> bool {
        self.transactions@.len() == self.receipts@.len()
    }

    /// Number of (transaction, receipt) pairs that the block holds; the two
    /// sequences are walked side by side. In a well-formed block that is every
    /// transaction; otherwise the entries past the shorter sequence have no
    /// partner and are not read.
    pub open spec fn pair_count(&self) -> nat {
        if self.transactions@.len() <= self.receipts@.len() {
            self.transactions@.len()
        } else {
            self.receipts@.len()
        }
    }

    pub fn pairs(&self) -> (r: usize)
        ensures
            r == self.pair_count(),
            self.wf() ==> r == self.transactions@.len() && r == self.receipts@.len(),
    {
        if self.transactions.len() <= self.receipts.len() {
            self.transactions.len()
        } else {
            self.receipts.len()
        }
    }
}

} // verus!

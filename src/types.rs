use vstd::prelude::*;

verus! {

/// Identity of a transaction: its sender account and sequence number.
#[derive(Clone, Copy, Debug, PartialEq, Eq, Structural)]
pub struct TxnPointer {
    pub sender: u64,
    pub seq: u64,
}

/// Whether an incoming transaction still needs a timeline position.
#[derive(Clone, Copy, Debug, PartialEq, Eq, Structural)]
pub enum TimelineState {
    /// Not yet placed on the timeline: the pool appends it.
    NotReady,
    /// Already placed on a timeline elsewhere: the pool does not append it.
    InPool,
}

/// Outcome of an admission request.
#[derive(Clone, Copy, Debug, PartialEq, Eq, Structural)]
pub enum MempoolAddTransactionStatusCode {
    Valid,
    InsufficientBalance,
    InvalidSeqNumber,
    InvalidUpdate,
    MempoolIsFull,
}

/// A buffered transaction with its metadata.
#[derive(Debug)]
pub struct TxnRecord {
    pub sender: u64,
    pub seq: u64,
    pub gas_price: u64,
    pub max_gas_amount: u64,
    /// Absolute deadline after which the transaction is swept.
    pub expiration: u64,
    /// Time at which the pool accepted the transaction.
    pub insertion_time: u64,
    /// Position on the timeline, if the pool assigned one.
    pub timeline_pos: Option<u64>,
    /// Signed transaction bytes, opaque to the pool.
    pub bytes: Vec<u8>,
}

pub open spec fn key_of(t: TxnRecord) -> TxnPointer {
    TxnPointer { sender: t.sender, seq: t.seq }
}

/// `a` comes strictly before `b` in block order: higher price first, then
/// earlier insertion, then lower account, then lower sequence number.
pub open spec fn precedes(a: TxnRecord, b: TxnRecord) -> bool {
    a.gas_price > b.gas_price || (a.gas_price == b.gas_price && (a.insertion_time
        < b.insertion_time || (a.insertion_time == b.insertion_time && (a.sender < b.sender || (
    a.sender == b.sender && a.seq < b.seq)))))
}

impl TxnRecord {
    pub fn key(&self) -> (r: TxnPointer)
        ensures
            r == key_of(*self),
    {
        TxnPointer { sender: self.sender, seq: self.seq }
    }

    /// Whether `self` comes strictly before `other` in block order.
    pub fn precedes(&self, other: &TxnRecord) -> (r: bool)
        ensures
            r == precedes(*self, *other),
    {
        self.gas_price > other.gas_price || (self.gas_price == other.gas_price && (
        self.insertion_time < other.insertion_time || (self.insertion_time
            == other.insertion_time && (self.sender < other.sender || (self.sender
            == other.sender && self.seq < other.seq)))))
    }
}

} // verus!

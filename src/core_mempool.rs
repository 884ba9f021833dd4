use vstd::prelude::*;

use crate::accounts::{
    AccountState,
    accounts_unique,
    expected_of,
    expected_sequence,
    set_expected,
};
use crate::block::{
    block,
    lemma_block_contiguous,
    lemma_block_excludes,
    lemma_block_same_expected,
    select_block,
};
use crate::store::{
    Removal,
    find_key,
    has_key,
    lemma_without_idempotent,
    keys_unique,
    lemma_without,
    lemma_without_keeps_order,
    remove_where,
    removes,
    timeline_ordered,
    without,
};
use crate::types::{
    MempoolAddTransactionStatusCode,
    TimelineState,
    TxnPointer,
    TxnRecord,
    key_of,
    precedes,
};

verus! {

/// A signed transaction as handed over by the validation service.
#[derive(Debug)]
pub struct SignedTxn {
    pub sender: u64,
    pub seq: u64,
    pub gas_price: u64,
    pub max_gas_amount: u64,
    pub expiration: u64,
    pub bytes: Vec<u8>,
}

/// Price of the record with identity `k` (meaningful when `has_key(s, k)`).
pub open spec fn price_at(s: Seq<TxnRecord>, k: TxnPointer) -> u64 {
    s[choose|i: int| 0 <= i < s.len() && key_of(s[i]) == k].gas_price
}

/// Index of the record of `s[0..n]` that comes last in block order.
pub open spec fn lowest_prefix(s: Seq<TxnRecord>, n: int) -> Option<int>
    decreases n,
{
    if n <= 0 {
        None
    } else {
        let prev = lowest_prefix(s, n - 1);
        if match prev {
            None => true,
            Some(b) => precedes(s[b], s[n - 1]),
        } {
            Some(n - 1)
        } else {
            prev
        }
    }
}

pub open spec fn lowest(s: Seq<TxnRecord>) -> Option<int> {
    lowest_prefix(s, s.len() as int)
}

/// Expected sequence number of the sender once an admission refreshes it.
pub open spec fn admission_expected(accts: Seq<AccountState>, sender: u64, db_seq: u64) -> u64 {
    if expected_of(accts, sender) > db_seq {
        expected_of(accts, sender)
    } else {
        db_seq
    }
}

/// The status an admission request gets.
pub open spec fn add_status(
    s: Seq<TxnRecord>,
    accts: Seq<AccountState>,
    capacity: nat,
    next_pos: u64,
    sender: u64,
    seq: u64,
    gas_price: u64,
    db_seq: u64,
    affordable: bool,
    state: TimelineState,
) -> MempoolAddTransactionStatusCode {
    let k = TxnPointer { sender, seq };
    if s.len() >= capacity && !match lowest(s) {
        Some(b) => gas_price > s[b].gas_price,
        None => false,
    } {
        MempoolAddTransactionStatusCode::MempoolIsFull
    } else if seq < admission_expected(accts, sender, db_seq) || (has_key(s, k) && price_at(s, k)
        >= gas_price) {
        MempoolAddTransactionStatusCode::InvalidSeqNumber
    } else if !affordable {
        MempoolAddTransactionStatusCode::InsufficientBalance
    } else if state == TimelineState::NotReady && next_pos == u64::MAX {
        MempoolAddTransactionStatusCode::InvalidUpdate
    } else {
        MempoolAddTransactionStatusCode::Valid
    }
}

pub open spec fn admitted_record(txn: SignedTxn, now: u64, pos: Option<u64>) -> TxnRecord {
    TxnRecord {
        sender: txn.sender,
        seq: txn.seq,
        gas_price: txn.gas_price,
        max_gas_amount: txn.max_gas_amount,
        expiration: txn.expiration,
        insertion_time: now,
        timeline_pos: pos,
        bytes: txn.bytes,
    }
}

/// The records after an admission: the sender's records below its refreshed
/// expected sequence number `exp` are dropped as committed, the record in the same
/// slot is replaced, and when the pool is still full the record that comes
/// last in block order is evicted; the new record goes last.
pub open spec fn admitted_records(
    s: Seq<TxnRecord>,
    capacity: nat,
    txn: SignedTxn,
    exp: u64,
    now: u64,
    pos: Option<u64>,
) -> Seq<TxnRecord> {
    let k = TxnPointer { sender: txn.sender, seq: txn.seq };
    let s0 = if exp > 0 {
        without(s, Removal::Committed { sender: txn.sender, seq: (exp - 1) as u64 })
    } else {
        s
    };
    let s1 = if has_key(s0, k) {
        without(s0, Removal::Key { ptr: k })
    } else {
        s0
    };
    let s2 = if s1.len() >= capacity {
        match lowest(s1) {
            Some(b) => without(s1, Removal::Key { ptr: key_of(s1[b]) }),
            None => s1,
        }
    } else {
        s1
    };
    s2.push(admitted_record(txn, now, pos))
}

/// No record has a sequence number below its account's expected one.
pub open spec fn none_stale(s: Seq<TxnRecord>, accts: Seq<AccountState>) -> bool {
    forall|i: int| 0 <= i < s.len() ==> #[trigger] s[i].seq >= expected_of(accts, s[i].sender)
}

/// Expected sequence number of an account after a commit up to `seq`.
pub open spec fn committed_expected(exp: u64, seq: u64) -> u64 {
    if exp > seq + 1 {
        exp
    } else {
        (seq + 1) as u64
    }
}

proof fn lemma_lowest_prefix(s: Seq<TxnRecord>, n: int)
    requires
        0 <= n <= s.len(),
    ensures
        match lowest_prefix(s, n) {
            Some(b) => 0 <= b < n,
            None => n == 0,
        },
    decreases n,
{
    if n > 0 {
        lemma_lowest_prefix(s, n - 1);
    }
}

fn lowest_index(v: &Vec<TxnRecord>) -> (r: Option<usize>)
    ensures
        match r {
            Some(b) => b < v@.len() && lowest(v@) == Some(b as int),
            None => lowest(v@) is None && v@.len() == 0,
        },
{
    proof {
        lemma_lowest_prefix(v@, v@.len() as int);
    }
    let mut best: Option<usize> = None;
    let mut i: usize = 0;
    while i < v.len()
        invariant
            i <= v@.len(),
            match best {
                Some(b) => b < i && lowest_prefix(v@, i as int) == Some(b as int),
                None => lowest_prefix(v@, i as int) is None,
            },
        decreases v@.len() - i,
    {
        match best {
            None => {
                best = Some(i);
            },
            Some(b) => {
                if v[b].precedes(&v[i]) {
                    best = Some(i);
                }
            },
        }
        i += 1;
    }
    best
}


/// The records left after committing each (account, sequence number) pair
/// of `list` in turn.
pub open spec fn commit_all(s: Seq<TxnRecord>, list: Seq<TxnPointer>) -> Seq<TxnRecord>
    decreases list.len(),
{
    if list.len() == 0 {
        s
    } else {
        without(
            commit_all(s, list.drop_last()),
            Removal::Committed { sender: list.last().sender, seq: list.last().seq },
        )
    }
}

/// Expected sequence number of account `a`, starting from `e`, after
/// committing each pair of `list` in turn.
pub open spec fn expected_after(e: u64, a: u64, list: Seq<TxnPointer>) -> u64
    decreases list.len(),
{
    if list.len() == 0 {
        e
    } else {
        let prev = expected_after(e, a, list.drop_last());
        if list.last().sender == a {
            committed_expected(prev, list.last().seq)
        } else {
            prev
        }
    }
}

/// Committing the same sequence number of an account twice leaves the same
/// records and the same expected sequence number as committing it once.
pub proof fn lemma_commit_idempotent(s: Seq<TxnRecord>, exp: u64, sender: u64, seq: u64)
    ensures
        without(without(s, Removal::Committed { sender, seq }), Removal::Committed { sender, seq })
            == without(s, Removal::Committed { sender, seq }),
        committed_expected(committed_expected(exp, seq), seq) == committed_expected(exp, seq),
{
    lemma_without_idempotent(s, Removal::Committed { sender, seq });
}

/// `b` is the pool `a` after committing `sender`'s transactions up to `seq`,
/// as `commit_transaction` leaves it.
pub open spec fn committed_pool(a: CoreMempool, b: CoreMempool, sender: u64, seq: u64) -> bool {
    &&& b.records() == without(a.records(), Removal::Committed { sender, seq })
    &&& forall|x: u64|
        #[trigger] expected_of(b.account_table(), x) == if x == sender {
            committed_expected(expected_of(a.account_table(), sender), seq)
        } else {
            expected_of(a.account_table(), x)
        }
    &&& b.capacity_spec() == a.capacity_spec()
    &&& b.next_position_spec() == a.next_position_spec()
}

/// Committing twice leaves the pool in the state one commit leaves: the same
/// records, expected sequence numbers, capacity and timeline position, and so
/// the same block for every exclusion set and size.
pub proof fn lemma_commit_twice(
    p0: CoreMempool,
    p1: CoreMempool,
    p2: CoreMempool,
    sender: u64,
    seq: u64,
    excl: Seq<TxnPointer>,
    max: nat,
)
    requires
        committed_pool(p0, p1, sender, seq),
        committed_pool(p1, p2, sender, seq),
    ensures
        p2.records() == p1.records(),
        forall|x: u64| #[trigger]
            expected_of(p2.account_table(), x) == expected_of(p1.account_table(), x),
        p2.capacity_spec() == p1.capacity_spec(),
        p2.next_position_spec() == p1.next_position_spec(),
        block(p2.records(), p2.account_table(), excl, max) == block(
            p1.records(),
            p1.account_table(),
            excl,
            max,
        ),
{
    lemma_commit_idempotent(
        p0.records(),
        expected_of(p0.account_table(), sender),
        sender,
        seq,
    );
    assert forall|x: u64| #[trigger]
        expected_of(p2.account_table(), x) == expected_of(p1.account_table(), x) by {
        if x == sender {
            lemma_commit_idempotent(
                p0.records(),
                expected_of(p0.account_table(), sender),
                sender,
                seq,
            );
        }
    }
    lemma_block_same_expected(p1.records(), p2.account_table(), p1.account_table(), excl, max);
}

/// A full pool in which no resident has a lower price than the incoming
/// transaction rejects it as full.
pub proof fn lemma_full_pool_rejects(
    s: Seq<TxnRecord>,
    accts: Seq<AccountState>,
    capacity: nat,
    next_pos: u64,
    sender: u64,
    seq: u64,
    gas_price: u64,
    db_seq: u64,
    affordable: bool,
    state: TimelineState,
)
    requires
        s.len() >= capacity,
        forall|j: int| 0 <= j < s.len() ==> #[trigger] s[j].gas_price >= gas_price,
    ensures
        add_status(s, accts, capacity, next_pos, sender, seq, gas_price, db_seq, affordable, state)
            == MempoolAddTransactionStatusCode::MempoolIsFull,
{
    lemma_lowest_prefix(s, s.len() as int);
}

/// Sequence contiguity in a pool: when position `j` of a block holds a
/// transaction of an account, every held record of that account with a
/// smaller sequence number that is not excluded appears earlier in the block.
pub proof fn lemma_pool_block_contiguous(
    pool: CoreMempool,
    excl: Seq<TxnPointer>,
    max: nat,
    j: int,
    i: int,
)
    requires
        pool.wf(),
        0 <= j < block(pool.records(), pool.account_table(), excl, max).len(),
        0 <= i < pool.records().len(),
        pool.records()[i].sender == block(pool.records(), pool.account_table(), excl, max)[j].sender,
        pool.records()[i].seq < block(pool.records(), pool.account_table(), excl, max)[j].seq,
        !excl.contains(key_of(pool.records()[i])),
    ensures
        exists|k: int|
            0 <= k < j && block(pool.records(), pool.account_table(), excl, max)[k] == key_of(
                pool.records()[i],
            ),
{
    pool.lemma_wf();
    let t = pool.records()[i];
    lemma_block_contiguous(pool.records(), pool.account_table(), excl, max, j, t.seq);
    assert(key_of(t) == (TxnPointer { sender: t.sender, seq: t.seq }));
}

/// An entry of the gossip timeline.
#[derive(Clone, Copy, Debug, PartialEq, Eq, Structural)]
pub struct TimelineEntry {
    pub position: u64,
    pub sender: u64,
    pub seq: u64,
}

/// Timeline entries of `s` with a position after `after`, in the order of `s`.
pub open spec fn timeline_after(s: Seq<TxnRecord>, after: u64) -> Seq<TimelineEntry>
    decreases s.len(),
{
    if s.len() == 0 {
        Seq::empty()
    } else {
        let t = s.last();
        let rest = timeline_after(s.drop_last(), after);
        match t.timeline_pos {
            Some(p) => if p > after {
                rest.push(TimelineEntry { position: p, sender: t.sender, seq: t.seq })
            } else {
                rest
            },
            None => rest,
        }
    }
}

/// Timeline entries lie after `after`, come from records of `s`, and have
/// strictly increasing positions.
pub proof fn lemma_timeline_sorted(s: Seq<TxnRecord>, after: u64, next: u64)
    requires
        timeline_ordered(s, next),
    ensures
        forall|k: int|
            #![trigger timeline_after(s, after)[k]]
            0 <= k < timeline_after(s, after).len() ==> timeline_after(s, after)[k].position > after
                && exists|i: int|
                0 <= i < s.len() && s[i].timeline_pos == Some(
                    timeline_after(s, after)[k].position,
                ),
        forall|k1: int, k2: int|
            0 <= k1 < k2 < timeline_after(s, after).len() ==> timeline_after(s, after)[k1].position
                < timeline_after(s, after)[k2].position,
    decreases s.len(),
{
    if s.len() > 0 {
        let d = s.drop_last();
        assert(timeline_ordered(d, next));
        lemma_timeline_sorted(d, after, next);
        let rest = timeline_after(d, after);
        let tl = timeline_after(s, after);
        assert forall|k: int| 0 <= k < rest.len() implies exists|i: int|
            0 <= i < s.len() && s[i].timeline_pos == Some(#[trigger] rest[k].position) by {
            let i = choose|i: int| 0 <= i < d.len() && d[i].timeline_pos == Some(rest[k].position);
            assert(s[i] == d[i]);
        }
        match s.last().timeline_pos {
            Some(p) => {
                if p > after {
                    let n = s.len() - 1;
                    assert forall|k: int| 0 <= k < rest.len() implies #[trigger] rest[k].position
                        < p by {
                        let i = choose|i: int|
                            0 <= i < d.len() && d[i].timeline_pos == Some(rest[k].position);
                        assert(s[i] == d[i]);
                        assert(i < n);
                    }
                    assert(tl[rest.len() as int].position == p);
                    assert(s[s.len() - 1].timeline_pos == Some(p));
                }
            },
            None => {},
        }
    }
}

proof fn lemma_timeline_prefix(s: Seq<TxnRecord>, i: int, after: u64)
    requires
        0 <= i <= s.len(),
    ensures
        timeline_after(s.take(i), after).len() <= timeline_after(s, after).len(),
        timeline_after(s, after).take(timeline_after(s.take(i), after).len() as int)
            =~= timeline_after(s.take(i), after),
    decreases s.len(),
{
    if i == s.len() {
        assert(s.take(i) =~= s);
    } else {
        lemma_timeline_prefix(s.drop_last(), i, after);
        assert(s.drop_last().take(i) =~= s.take(i));
    }
}

/// The transaction pool: a store of records plus the expected sequence number
/// of each account; block order, readiness, the timeline and expiry are all
/// read off the store.
pub struct CoreMempool {
    txns: Vec<TxnRecord>,
    accounts: Vec<AccountState>,
    capacity: usize,
    next_position: u64,
}

impl CoreMempool {
    /// The records held, in order of admission.
    pub closed spec fn records(&self) -> Seq<TxnRecord> {
        self.txns@
    }

    /// The expected sequence number of each known account.
    pub closed spec fn account_table(&self) -> Seq<AccountState> {
        self.accounts@
    }

    pub closed spec fn capacity_spec(&self) -> nat {
        self.capacity as nat
    }

    /// The timeline position the next admitted record gets.
    pub closed spec fn next_position_spec(&self) -> u64 {
        self.next_position
    }

    pub closed spec fn wf(&self) -> bool {
        &&& accounts_unique(self.accounts@)
        &&& keys_unique(self.txns@)
        &&& timeline_ordered(self.txns@, self.next_position)
        &&& self.txns@.len() <= self.capacity
        &&& none_stale(self.txns@, self.accounts@)
    }

    /// What a well-formed pool guarantees to its users.
    pub proof fn lemma_wf(&self)
        requires
            self.wf(),
        ensures
            self.records().len() <= self.capacity_spec(),
            accounts_unique(self.account_table()),
            keys_unique(self.records()),
            timeline_ordered(self.records(), self.next_position_spec()),
            none_stale(self.records(), self.account_table()),
    {
    }

    /// An empty pool that holds at most `capacity` transactions.
    pub fn new(capacity: usize) -> (r: Self)
        ensures
            r.wf(),
            r.records() == Seq::<TxnRecord>::empty(),
            r.account_table() == Seq::<AccountState>::empty(),
            r.capacity_spec() == capacity,
            r.next_position_spec() == 1,
    {
        CoreMempool { txns: Vec::new(), accounts: Vec::new(), capacity, next_position: 1 }
    }

    pub fn len(&self) -> (r: usize)
        ensures
            r == self.records().len(),
    {
        self.txns.len()
    }

    pub fn capacity(&self) -> (r: usize)
        ensures
            r == self.capacity_spec(),
    {
        self.capacity
    }

    /// Next sequence number the chain accepts from `sender`, as last refreshed.
    pub fn expected_sequence(&self, sender: u64) -> (r: u64)
        requires
            self.wf(),
        ensures
            r == expected_of(self.account_table(), sender),
    {
        expected_sequence(&self.accounts, sender)
    }

    /// The record with identity (`sender`, `seq`), if held.
    pub fn get_transaction(&self, sender: u64, seq: u64) -> (r: Option<&TxnRecord>)
        ensures
            match r {
                Some(t) => self.records().contains(*t) && t.sender == sender && t.seq == seq,
                None => !has_key(self.records(), TxnPointer { sender, seq }),
            },
    {
        match find_key(&self.txns, TxnPointer { sender, seq }) {
            Some(i) => Some(&self.txns[i]),
            None => None,
        }
    }

    /// Admits `txn`, given the sender's committed sequence number
    /// `db_sequence_number`, the upstream affordability verdict and the time
    /// `now`. A rejection leaves the pool as it was. An admission refreshes
    /// the sender's expected sequence number and, as a commit would, drops
    /// the sender's records below it: those are already on chain.
    #[verifier::rlimit(50)]
    pub fn add_txn(
        &mut self,
        txn: SignedTxn,
        db_sequence_number: u64,
        is_affordable: bool,
        now: u64,
        timeline_state: TimelineState,
    ) -> (r: MempoolAddTransactionStatusCode)
        requires
            old(self).wf(),
        ensures
            final(self).wf(),
            final(self).records().len() <= final(self).capacity_spec(),
            r == add_status(
                old(self).records(),
                old(self).account_table(),
                old(self).capacity_spec(),
                old(self).next_position_spec(),
                txn.sender,
                txn.seq,
                txn.gas_price,
                db_sequence_number,
                is_affordable,
                timeline_state,
            ),
            r != MempoolAddTransactionStatusCode::Valid ==> *final(self) == *old(self),
            r == MempoolAddTransactionStatusCode::Valid ==> admitted_pool(
                *old(self),
                *final(self),
                txn,
                db_sequence_number,
                now,
                timeline_state,
            ),
    {
        let ghost s = self.txns@;
        let k = TxnPointer { sender: txn.sender, seq: txn.seq };
        if self.txns.len() >= self.capacity {
            match lowest_index(&self.txns) {
                None => {
                    return MempoolAddTransactionStatusCode::MempoolIsFull;
                },
                Some(b) => {
                    if txn.gas_price <= self.txns[b].gas_price {
                        return MempoolAddTransactionStatusCode::MempoolIsFull;
                    }
                },
            }
        }
        let cached = expected_sequence(&self.accounts, txn.sender);
        let exp = if cached > db_sequence_number {
            cached
        } else {
            db_sequence_number
        };
        if txn.seq < exp {
            return MempoolAddTransactionStatusCode::InvalidSeqNumber;
        }
        let slot = find_key(&self.txns, k);
        match slot {
            Some(i) => {
                proof {
                    let c = choose|j: int| 0 <= j < s.len() && key_of(s[j]) == k;
                    assert(c == i);
                }
                if self.txns[i].gas_price >= txn.gas_price {
                    return MempoolAddTransactionStatusCode::InvalidSeqNumber;
                }
            },
            None => {},
        }
        if !is_affordable {
            return MempoolAddTransactionStatusCode::InsufficientBalance;
        }
        let pos = match timeline_state {
            TimelineState::NotReady => {
                if self.next_position == u64::MAX {
                    return MempoolAddTransactionStatusCode::InvalidUpdate;
                }
                Some(self.next_position)
            },
            TimelineState::InPool => None,
        };
        let ghost next = self.next_position;
        if exp > 0 {
            let stale = Removal::Committed { sender: txn.sender, seq: exp - 1 };
            proof {
                lemma_without(s, stale);
                lemma_without_keeps_order(s, stale, next);
            }
            remove_where(&mut self.txns, stale);
        }
        let ghost s0 = self.txns@;
        assert(s0.len() <= s.len());
        assert(forall|j: int| 0 <= j < s0.len() ==> s.contains(#[trigger] s0[j]));
        assert(keys_unique(s0) && timeline_ordered(s0, next));
        if find_key(&self.txns, k).is_some() {
            proof {
                lemma_without(s0, Removal::Key { ptr: k });
                lemma_without_keeps_order(s0, Removal::Key { ptr: k }, next);
            }
            remove_where(&mut self.txns, Removal::Key { ptr: k });
        }
        let ghost s1 = self.txns@;
        assert(s1.len() <= s0.len());
        assert(forall|j: int| 0 <= j < s1.len() ==> key_of(#[trigger] s1[j]) != k);
        assert(forall|j: int| 0 <= j < s1.len() ==> s0.contains(#[trigger] s1[j]));
        assert(forall|j: int| 0 <= j < s1.len() ==> s.contains(#[trigger] s1[j]));
        assert(keys_unique(s1) && timeline_ordered(s1, next));
        if self.txns.len() >= self.capacity {
            match lowest_index(&self.txns) {
                Some(b) => {
                    let kb = self.txns[b].key();
                    proof {
                        lemma_without(s1, Removal::Key { ptr: kb });
                        lemma_without_keeps_order(s1, Removal::Key { ptr: kb }, next);
                    }
                    remove_where(&mut self.txns, Removal::Key { ptr: kb });
                },
                None => {},
            }
        }
        let ghost s2 = self.txns@;
        assert(s2.len() < self.capacity);
        assert(forall|j: int| 0 <= j < s2.len() ==> key_of(#[trigger] s2[j]) != k);
        assert(forall|j: int| 0 <= j < s2.len() ==> s.contains(#[trigger] s2[j]));
        assert(keys_unique(s2) && timeline_ordered(s2, next));
        let record = TxnRecord {
            sender: txn.sender,
            seq: txn.seq,
            gas_price: txn.gas_price,
            max_gas_amount: txn.max_gas_amount,
            expiration: txn.expiration,
            insertion_time: now,
            timeline_pos: pos,
            bytes: txn.bytes,
        };
        self.txns.push(record);
        set_expected(&mut self.accounts, k.sender, exp);
        if pos.is_some() {
            self.next_position = self.next_position + 1;
        }
        proof {
            let s3 = self.txns@;
            assert(s3 =~= s2.push(record));
            assert forall|j: int| 0 <= j < s2.len() && s2[j].timeline_pos is Some implies s2[j].timeline_pos->Some_0
                < next by {
                assert(s.contains(s2[j]));
            }
        }
        MempoolAddTransactionStatusCode::Valid
    }

    /// Notes that `sender`'s transactions up to `seq` are final: drops them
    /// and advances the account's expected sequence number.
    pub fn commit_transaction(&mut self, sender: u64, seq: u64)
        requires
            old(self).wf(),
            seq < u64::MAX,
        ensures
            final(self).wf(),
            committed_pool(*old(self), *final(self), sender, seq),
    {
        let rule = Removal::Committed { sender, seq };
        proof {
            lemma_without(self.txns@, rule);
            lemma_without_keeps_order(self.txns@, rule, self.next_position);
        }
        remove_where(&mut self.txns, rule);
        let cur = expected_sequence(&self.accounts, sender);
        let next = if cur > seq + 1 {
            cur
        } else {
            seq + 1
        };
        set_expected(&mut self.accounts, sender, next);
    }

    /// Commits each (account, finalized sequence number) pair of `finalized`
    /// in turn.
    pub fn commit(&mut self, finalized: &Vec<TxnPointer>)
        requires
            old(self).wf(),
            forall|i: int| 0 <= i < finalized@.len() ==> #[trigger] finalized@[i].seq < u64::MAX,
        ensures
            final(self).wf(),
            final(self).records() == commit_all(old(self).records(), finalized@),
            forall|b: u64|
                #[trigger] expected_of(final(self).account_table(), b) == expected_after(
                    expected_of(old(self).account_table(), b),
                    b,
                    finalized@,
                ),
            final(self).capacity_spec() == old(self).capacity_spec(),
            final(self).next_position_spec() == old(self).next_position_spec(),
    {
        let ghost s0 = self.records();
        let ghost a0 = self.account_table();
        let mut i: usize = 0;
        while i < finalized.len()
            invariant
                self.wf(),
                forall|j: int| 0 <= j < finalized@.len() ==> #[trigger] finalized@[j].seq < u64::MAX,
                i <= finalized@.len(),
                self.records() == commit_all(s0, finalized@.take(i as int)),
                forall|b: u64|
                    #[trigger] expected_of(self.account_table(), b) == expected_after(
                        expected_of(a0, b),
                        b,
                        finalized@.take(i as int),
                    ),
                self.capacity_spec() == old(self).capacity_spec(),
                self.next_position_spec() == old(self).next_position_spec(),
            decreases finalized@.len() - i,
        {
            let p = finalized[i];
            self.commit_transaction(p.sender, p.seq);
            assert(finalized@.take(i + 1).drop_last() =~= finalized@.take(i as int));
            i += 1;
        }
        assert(finalized@.take(i as int) =~= finalized@);
    }

    /// Drops every record whose deadline is at most `now`.
    pub fn gc(&mut self, now: u64)
        requires
            old(self).wf(),
        ensures
            final(self).wf(),
            final(self).records() == without(old(self).records(), Removal::ExpiredBy { now }),
            forall|j: int|
                0 <= j < final(self).records().len() ==> #[trigger] final(self).records()[j].expiration
                    > now,
            final(self).account_table() == old(self).account_table(),
            final(self).capacity_spec() == old(self).capacity_spec(),
            final(self).next_position_spec() == old(self).next_position_spec(),
    {
        let rule = Removal::ExpiredBy { now };
        proof {
            lemma_without(self.txns@, rule);
            lemma_without_keeps_order(self.txns@, rule, self.next_position);
        }
        remove_where(&mut self.txns, rule);
    }

    /// The identities of a block of at most `max_size` transactions, skipping
    /// `exclude`: the greedy walk in block order that takes a ready
    /// transaction only once every earlier sequence number of its account,
    /// from the expected one, is held and is excluded or already taken. The
    /// records themselves are read with `get_transaction`.
    pub fn get_block(&self, max_size: u64, exclude: &Vec<TxnPointer>) -> (r: Vec<TxnPointer>)
        requires
            self.wf(),
        ensures
            r@ == block(self.records(), self.account_table(), exclude@, max_size as nat),
    {
        select_block(&self.txns, &self.accounts, exclude, max_size)
    }

    /// The held records of the block `get_block` selects, in block order.
    pub fn get_block_transactions(&self, max_size: u64, exclude: &Vec<TxnPointer>) -> (r: Vec<
        &TxnRecord,
    >)
        requires
            self.wf(),
        ensures
            r@.len() == block(self.records(), self.account_table(), exclude@, max_size as nat).len(),
            forall|j: int|
                0 <= j < r@.len() ==> self.records().contains(*#[trigger] r@[j]) && key_of(*r@[j])
                    == block(self.records(), self.account_table(), exclude@, max_size as nat)[j],
    {
        let keys = self.get_block(max_size, exclude);
        let mut out: Vec<&TxnRecord> = Vec::new();
        let mut i: usize = 0;
        while i < keys.len()
            invariant
                i <= keys@.len(),
                keys@ == block(self.records(), self.account_table(), exclude@, max_size as nat),
                out@.len() == i,
                forall|j: int|
                    0 <= j < i ==> self.records().contains(*#[trigger] out@[j]) && key_of(*out@[j])
                        == keys@[j],
            decreases keys@.len() - i,
        {
            let k = keys[i];
            match find_key(&self.txns, k) {
                Some(x) => {
                    let t = &self.txns[x];
                    assert(self.txns@[x as int] == *t);
                    out.push(t);
                },
                None => {
                    proof {
                        lemma_block_excludes(
                            self.records(),
                            self.account_table(),
                            exclude@,
                            max_size as nat,
                        );
                    }
                    assert(block(self.records(), self.account_table(), exclude@, max_size as nat)[i as int]
                        == k);
                    assert(has_key(self.records(), k));
                    return out;
                },
            }
            i += 1;
        }
        out
    }

    /// Timeline entries with a position after `after`, in order, at most
    /// `count` of them, and the position of the last one returned (`after`
    /// when none is).
    pub fn read_timeline(&self, after: u64, count: usize) -> (r: (Vec<TimelineEntry>, u64))
        requires
            self.wf(),
        ensures
            r.0@ == timeline_after(self.records(), after).take(
                if count < timeline_after(self.records(), after).len() {
                    count as int
                } else {
                    timeline_after(self.records(), after).len() as int
                },
            ),
            r.1 == if r.0@.len() == 0 {
                after
            } else {
                r.0@.last().position
            },
            forall|k: int| 0 <= k < r.0@.len() ==> #[trigger] r.0@[k].position > after,
            forall|k1: int, k2: int|
                0 <= k1 < k2 < r.0@.len() ==> r.0@[k1].position < r.0@[k2].position,
    {
        let mut out: Vec<TimelineEntry> = Vec::new();
        let mut i: usize = 0;
        let ghost s = self.txns@;
        while i < self.txns.len() && out.len() < count
            invariant
                i <= s.len(),
                s == self.txns@,
                out.len() <= count,
                out@ == timeline_after(s.take(i as int), after),
            decreases s.len() - i,
        {
            assert(s.take(i + 1).drop_last() =~= s.take(i as int));
            match self.txns[i].timeline_pos {
                Some(p) => {
                    if p > after {
                        out.push(TimelineEntry { position: p, sender: self.txns[i].sender, seq: self.txns[i].seq });
                    }
                },
                None => {},
            }
            i += 1;
        }
        proof {
            lemma_timeline_sorted(s, after, self.next_position);
            lemma_timeline_prefix(s, i as int, after);
            if i == s.len() {
                assert(s.take(i as int) =~= s);
            }
        }
        let cursor = if out.len() == 0 {
            after
        } else {
            out[out.len() - 1].position
        };
        (out, cursor)
    }
}

/// `b` is the pool `a` after admitting `txn`: the records are
/// `admitted_records`, the sender's expected sequence number is refreshed, the
/// capacity is kept and a position is taken on the timeline when asked for.
pub open spec fn admitted_pool(
    a: CoreMempool,
    b: CoreMempool,
    txn: SignedTxn,
    db_seq: u64,
    now: u64,
    state: TimelineState,
) -> bool {
    &&& b.records() == admitted_records(
        a.records(),
        a.capacity_spec(),
        txn,
        admission_expected(a.account_table(), txn.sender, db_seq),
        now,
        if state == TimelineState::NotReady {
            Some(a.next_position_spec())
        } else {
            None
        },
    )
    &&& forall|x: u64|
        #[trigger] expected_of(b.account_table(), x) == if x == txn.sender {
            admission_expected(a.account_table(), txn.sender, db_seq)
        } else {
            expected_of(a.account_table(), x)
        }
    &&& b.capacity_spec() == a.capacity_spec()
    &&& b.next_position_spec() == if state == TimelineState::NotReady {
        (a.next_position_spec() + 1) as u64
    } else {
        a.next_position_spec()
    }
}

} // verus!

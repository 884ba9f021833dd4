use vstd::prelude::*;

use crate::block::{block, lemma_block_excludes};
use crate::accounts::AccountState;
use crate::core_mempool::{CoreMempool, SignedTxn, add_status, admitted_pool};
use crate::types::{MempoolAddTransactionStatusCode, TimelineState, TxnPointer};

verus! {

/// Capacity of a pool set up for tests.
pub const TEST_CAPACITY: usize = 1_000_000;

/// Number of accounts that test transactions can come from.
pub const TEST_ACCOUNT_COUNT: usize = 2;

/// Gas amount a test transaction allows unless it says otherwise.
pub const TEST_MAX_GAS_AMOUNT: u64 = 100;

/// A transaction described by an account index, a sequence number and a price.
#[derive(Clone, Copy, Debug, PartialEq, Eq, Structural)]
pub struct TestTransaction {
    pub address: usize,
    pub sequence_number: u64,
    pub gas_price: u64,
}

impl TestTransaction {
    pub fn new(address: usize, sequence_number: u64, gas_price: u64) -> (r: Self)
        ensures
            r == (TestTransaction { address, sequence_number, gas_price }),
    {
        TestTransaction { address, sequence_number, gas_price }
    }

    /// The account address of the account with index `address`.
    pub fn get_address(address: usize) -> (r: u64)
        requires
            address < TEST_ACCOUNT_COUNT,
        ensures
            r == address as u64,
    {
        address as u64
    }

    pub fn make_signed_transaction_with_expiration_time(&self, exp_time: u64) -> (r: SignedTxn)
        requires
            self.address < TEST_ACCOUNT_COUNT,
        ensures
            r.bytes@.len() == 0,
            r.sender == self.address as u64,
            r.seq == self.sequence_number,
            r.gas_price == self.gas_price,
            r.max_gas_amount == TEST_MAX_GAS_AMOUNT,
            r.expiration == exp_time,
    {
        self.make_signed_transaction_impl(TEST_MAX_GAS_AMOUNT, exp_time)
    }

    pub fn make_signed_transaction_with_max_gas_amount(&self, max_gas_amount: u64) -> (r:
        SignedTxn)
        requires
            self.address < TEST_ACCOUNT_COUNT,
        ensures
            r.bytes@.len() == 0,
            r.sender == self.address as u64,
            r.seq == self.sequence_number,
            r.gas_price == self.gas_price,
            r.max_gas_amount == max_gas_amount,
            r.expiration == u64::MAX,
    {
        self.make_signed_transaction_impl(max_gas_amount, u64::MAX)
    }

    /// The transaction, never expiring.
    pub fn make_signed_transaction(&self) -> (r: SignedTxn)
        requires
            self.address < TEST_ACCOUNT_COUNT,
        ensures
            r.bytes@.len() == 0,
            r.sender == self.address as u64,
            r.seq == self.sequence_number,
            r.gas_price == self.gas_price,
            r.max_gas_amount == TEST_MAX_GAS_AMOUNT,
            r.expiration == u64::MAX,
    {
        self.make_signed_transaction_impl(TEST_MAX_GAS_AMOUNT, u64::MAX)
    }

    fn make_signed_transaction_impl(&self, max_gas_amount: u64, exp_time: u64) -> (r: SignedTxn)
        requires
            self.address < TEST_ACCOUNT_COUNT,
        ensures
            r.bytes@.len() == 0,
            r.sender == self.address as u64,
            r.seq == self.sequence_number,
            r.gas_price == self.gas_price,
            r.max_gas_amount == max_gas_amount,
            r.expiration == exp_time,
    {
        SignedTxn {
            sender: Self::get_address(self.address),
            seq: self.sequence_number,
            gas_price: self.gas_price,
            max_gas_amount,
            expiration: exp_time,
            bytes: Vec::new(),
        }
    }
}

/// Keeps the transactions already proposed between `get_block` calls, as
/// consensus does, so that no transaction is proposed twice.
pub struct ConsensusMock {
    seen: Vec<TxnPointer>,
}

impl ConsensusMock {
    /// Everything proposed so far, in order.
    pub closed spec fn proposed(&self) -> Seq<TxnPointer> {
        self.seen@
    }

    pub fn new() -> (r: Self)
        ensures
            r.proposed() == Seq::<TxnPointer>::empty(),
            r.proposed().no_duplicates(),
    {
        ConsensusMock { seen: Vec::new() }
    }

    /// A block of at most `block_size` transactions that leaves out all that
    /// was proposed before; it is then counted as proposed.
    pub fn get_block(&mut self, mempool: &CoreMempool, block_size: u64) -> (r: Vec<TxnPointer>)
        requires
            mempool.wf(),
        ensures
            r@ == block(
                mempool.records(),
                mempool.account_table(),
                old(self).proposed(),
                block_size as nat,
            ),
            forall|j: int| 0 <= j < r@.len() ==> !old(self).proposed().contains(#[trigger] r@[j]),
            final(self).proposed() == old(self).proposed() + r@,
            old(self).proposed().no_duplicates() ==> final(self).proposed().no_duplicates(),
    {
        let block = mempool.get_block(block_size, &self.seen);
        proof {
            lemma_block_excludes(
                mempool.records(),
                mempool.account_table(),
                self.seen@,
                block_size as nat,
            );
        }
        let mut i: usize = 0;
        let ghost before = self.seen@;
        while i < block.len()
            invariant
                i <= block@.len(),
                self.seen@ == before + block@.take(i as int),
            decreases block@.len() - i,
        {
            self.seen.push(block[i]);
            assert(block@.take(i + 1) =~= block@.take(i as int).push(block@[i as int]));
            i += 1;
        }
        assert(block@.take(i as int) =~= block@);
        proof {
            let p = self.seen@;
            if before.no_duplicates() {
                assert forall|x: int, y: int| 0 <= x < y < p.len() implies p[x] != p[y] by {
                    if y >= before.len() {
                        assert(p[y] == block@[y - before.len()]);
                        if x >= before.len() {
                            assert(p[x] == block@[x - before.len()]);
                        } else {
                            assert(before.contains(p[x]));
                        }
                    }
                }
            }
        }
        block
    }
}

/// An empty pool of the test capacity, and a fresh consensus stand-in.
pub fn setup_mempool() -> (r: (CoreMempool, ConsensusMock))
    ensures
        r.0.wf(),
        r.0.records().len() == 0,
        r.0.capacity_spec() == TEST_CAPACITY,
        r.0.account_table() == Seq::<AccountState>::empty(),
        r.0.next_position_spec() == 1,
        r.1.proposed().len() == 0,
{
    (CoreMempool::new(TEST_CAPACITY), ConsensusMock::new())
}

/// Admits `transaction` as a fresh, affordable transaction of an account with
/// nothing committed; `Ok` exactly when it is accepted.
pub fn add_signed_txn(pool: &mut CoreMempool, transaction: SignedTxn) -> (r: Result<(), ()>)
    requires
        old(pool).wf(),
    ensures
        final(pool).wf(),
        r is Ok <==> add_status(
            old(pool).records(),
            old(pool).account_table(),
            old(pool).capacity_spec(),
            old(pool).next_position_spec(),
            transaction.sender,
            transaction.seq,
            transaction.gas_price,
            0,
            true,
            TimelineState::NotReady,
        ) == MempoolAddTransactionStatusCode::Valid,
        r is Ok ==> admitted_pool(*old(pool), *final(pool), transaction, 0, 0, TimelineState::NotReady),
        r is Err ==> *final(pool) == *old(pool),
{
    match pool.add_txn(transaction, 0, true, 0, TimelineState::NotReady) {
        MempoolAddTransactionStatusCode::Valid => Ok(()),
        _ => Err(()),
    }
}

/// `b` is the pool `a` after submitting the never-expiring transaction that
/// `t` describes: admitted as `admitted_pool` says when its status is
/// `Valid`, else `a` unchanged.
pub open spec fn test_admission(a: CoreMempool, b: CoreMempool, t: TestTransaction) -> bool {
    if add_status(
        a.records(),
        a.account_table(),
        a.capacity_spec(),
        a.next_position_spec(),
        t.address as u64,
        t.sequence_number,
        t.gas_price,
        0,
        true,
        TimelineState::NotReady,
    ) == MempoolAddTransactionStatusCode::Valid {
        exists|s: SignedTxn|
            #![trigger admitted_pool(a, b, s, 0, 0, TimelineState::NotReady)]
            s.sender == t.address as u64 && s.seq == t.sequence_number && s.gas_price
                == t.gas_price && s.max_gas_amount == TEST_MAX_GAS_AMOUNT && s.expiration
                == u64::MAX && s.bytes@.len() == 0 && admitted_pool(
                a,
                b,
                s,
                0,
                0,
                TimelineState::NotReady,
            )
    } else {
        b == a
    }
}

/// Admits the never-expiring transaction that `transaction` describes.
pub fn add_txn(pool: &mut CoreMempool, transaction: TestTransaction) -> (r: Result<(), ()>)
    requires
        old(pool).wf(),
        transaction.address < TEST_ACCOUNT_COUNT,
    ensures
        final(pool).wf(),
        r is Ok <==> add_status(
            old(pool).records(),
            old(pool).account_table(),
            old(pool).capacity_spec(),
            old(pool).next_position_spec(),
            transaction.address as u64,
            transaction.sequence_number,
            transaction.gas_price,
            0,
            true,
            TimelineState::NotReady,
        ) == MempoolAddTransactionStatusCode::Valid,
        test_admission(*old(pool), *final(pool), transaction),
{
    let signed = transaction.make_signed_transaction();
    let ghost submitted = signed;
    let r = add_signed_txn(pool, signed);
    proof {
        if r is Ok {
            assert(admitted_pool(*old(pool), *pool, submitted, 0, 0, TimelineState::NotReady));
        }
    }
    r
}

/// Submits each of `txns` in turn, whether accepted or not; returns the
/// identities of the transactions submitted, in order.
pub fn add_txns_to_mempool(pool: &mut CoreMempool, txns: Vec<TestTransaction>) -> (r: Vec<
    TxnPointer,
>)
    requires
        old(pool).wf(),
        forall|i: int| 0 <= i < txns@.len() ==> #[trigger] txns@[i].address < TEST_ACCOUNT_COUNT,
    ensures
        final(pool).wf(),
        final(pool).capacity_spec() == old(pool).capacity_spec(),
        final(pool).records().len() <= final(pool).capacity_spec(),
        exists|states: Seq<CoreMempool>|
            #![trigger states.len()]
            states.len() == txns@.len() + 1 && states[0] == *old(pool) && states[txns@.len() as int]
                == *final(pool) && forall|i: int|
                0 <= i < txns@.len() ==> test_admission(
                    states[i],
                    states[i + 1],
                    #[trigger] txns@[i],
                ),
        r@.len() == txns@.len(),
        forall|i: int|
            0 <= i < txns@.len() ==> #[trigger] r@[i] == (TxnPointer {
                sender: txns@[i].address as u64,
                seq: txns@[i].sequence_number,
            }),
{
    let mut submitted: Vec<TxnPointer> = Vec::new();
    let ghost p0 = *pool;
    let ghost mut states: Seq<CoreMempool> = seq![p0];
    let mut i: usize = 0;
    while i < txns.len()
        invariant
            pool.wf(),
            forall|j: int| 0 <= j < txns@.len() ==> #[trigger] txns@[j].address < TEST_ACCOUNT_COUNT,
            pool.capacity_spec() == p0.capacity_spec(),
            states.len() == i + 1,
            states[0] == p0,
            states[i as int] == *pool,
            forall|j: int|
                0 <= j < i ==> test_admission(states[j], states[j + 1], #[trigger] txns@[j]),
            i <= txns@.len(),
            submitted@.len() == i,
            forall|j: int|
                0 <= j < i ==> #[trigger] submitted@[j] == (TxnPointer {
                    sender: txns@[j].address as u64,
                    seq: txns@[j].sequence_number,
                }),
        decreases txns@.len() - i,
    {
        let t = txns[i];
        let _ = add_txn(pool, t);
        proof {
            states = states.push(*pool);
        }
        submitted.push(TxnPointer { sender: TestTransaction::get_address(t.address), seq: t.sequence_number });
        i += 1;
    }
    proof {
        pool.lemma_wf();
        assert(states.len() == txns@.len() + 1);
    }
    submitted
}

} // verus!

use mempool::core_mempool::CoreMempool;
use mempool::testing::{
    add_signed_txn, add_txn, add_txns_to_mempool, setup_mempool, ConsensusMock, TestTransaction,
    TEST_CAPACITY, TEST_MAX_GAS_AMOUNT,
};
use mempool::types::TxnPointer;

fn ptr(sender: u64, seq: u64) -> TxnPointer {
    TxnPointer { sender, seq }
}

#[test]
fn test_transaction_builds_signed_transaction() {
    let t = TestTransaction::new(1, 3, 20);
    let s = t.make_signed_transaction();
    assert_eq!((s.sender, s.seq, s.gas_price), (1, 3, 20));
    assert_eq!(s.max_gas_amount, TEST_MAX_GAS_AMOUNT);
    assert_eq!(s.expiration, u64::MAX);
    let s = t.make_signed_transaction_with_max_gas_amount(7);
    assert_eq!((s.max_gas_amount, s.expiration), (7, u64::MAX));
    let s = t.make_signed_transaction_with_expiration_time(42);
    assert_eq!((s.max_gas_amount, s.expiration), (TEST_MAX_GAS_AMOUNT, 42));
    assert_eq!(TestTransaction::get_address(1), 1);
}

#[test]
fn setup_gives_empty_pool_of_test_capacity() {
    let (pool, _consensus) = setup_mempool();
    assert_eq!(pool.len(), 0);
    assert_eq!(pool.capacity(), TEST_CAPACITY);
}

#[test]
fn add_helpers_report_acceptance() {
    let mut pool = CoreMempool::new(10);
    assert_eq!(add_txn(&mut pool, TestTransaction::new(0, 0, 1)), Ok(()));
    assert_eq!(add_txn(&mut pool, TestTransaction::new(0, 0, 1)), Err(()));
    let signed = TestTransaction::new(1, 0, 1).make_signed_transaction();
    assert_eq!(add_signed_txn(&mut pool, signed), Ok(()));
    assert_eq!(pool.len(), 2);
}

#[test]
fn add_txns_to_mempool_submits_all() {
    let mut pool = CoreMempool::new(10);
    let txns = vec![
        TestTransaction::new(0, 0, 1),
        TestTransaction::new(1, 0, 2),
        TestTransaction::new(0, 0, 1),
    ];
    let submitted = add_txns_to_mempool(&mut pool, txns);
    assert_eq!(submitted, vec![ptr(0, 0), ptr(1, 0), ptr(0, 0)]);
    assert_eq!(pool.len(), 2);
}

#[test]
fn consensus_mock_never_proposes_twice() {
    let (mut pool, mut consensus) = setup_mempool();
    add_txns_to_mempool(
        &mut pool,
        vec![
            TestTransaction::new(0, 0, 1),
            TestTransaction::new(0, 1, 1),
            TestTransaction::new(1, 0, 3),
        ],
    );
    assert_eq!(consensus.get_block(&pool, 1), vec![ptr(1, 0)]);
    assert_eq!(consensus.get_block(&pool, 1), vec![ptr(0, 0)]);
    add_txn(&mut pool, TestTransaction::new(1, 1, 5)).unwrap();
    assert_eq!(consensus.get_block(&pool, 10), vec![ptr(1, 1), ptr(0, 1)]);
    assert!(consensus.get_block(&pool, 10).is_empty());
    let mut fresh = ConsensusMock::new();
    assert_eq!(fresh.get_block(&pool, 10).len(), 4);
}

#[test]
fn batch_commit_applies_each_pair() {
    let mut pool = CoreMempool::new(10);
    add_txns_to_mempool(
        &mut pool,
        vec![
            TestTransaction::new(0, 0, 1),
            TestTransaction::new(0, 1, 1),
            TestTransaction::new(0, 2, 1),
            TestTransaction::new(1, 0, 1),
            TestTransaction::new(1, 1, 1),
        ],
    );
    pool.commit(&vec![ptr(0, 1), ptr(1, 0), ptr(0, 0)]);
    assert_eq!(pool.len(), 2);
    assert_eq!(pool.expected_sequence(0), 2);
    assert_eq!(pool.expected_sequence(1), 1);
    assert_eq!(pool.get_block(10, &vec![]), vec![ptr(0, 2), ptr(1, 1)]);
}

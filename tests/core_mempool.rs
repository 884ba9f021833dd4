use mempool::core_mempool::{CoreMempool, SignedTxn, TimelineEntry};
use mempool::types::{MempoolAddTransactionStatusCode, TimelineState, TxnPointer};

const X: u64 = 7;
const Y: u64 = 9;

fn txn(sender: u64, seq: u64, gas_price: u64) -> SignedTxn {
    txn_expiring(sender, seq, gas_price, u64::MAX)
}

fn txn_expiring(sender: u64, seq: u64, gas_price: u64, expiration: u64) -> SignedTxn {
    SignedTxn {
        sender,
        seq,
        gas_price,
        max_gas_amount: 100,
        expiration,
        bytes: vec![sender as u8, seq as u8],
    }
}

fn ptr(sender: u64, seq: u64) -> TxnPointer {
    TxnPointer { sender, seq }
}

fn add(pool: &mut CoreMempool, t: SignedTxn, now: u64) -> MempoolAddTransactionStatusCode {
    pool.add_txn(t, 0, true, now, TimelineState::NotReady)
}

#[test]
fn sequence_contiguity_dominates_price() {
    let mut pool = CoreMempool::new(100);
    assert_eq!(add(&mut pool, txn(X, 0, 10), 1), MempoolAddTransactionStatusCode::Valid);
    assert_eq!(add(&mut pool, txn(X, 1, 5), 2), MempoolAddTransactionStatusCode::Valid);
    assert_eq!(pool.get_block(10, &vec![]), vec![ptr(X, 0), ptr(X, 1)]);
}

#[test]
fn higher_priced_successor_waits_for_predecessor() {
    let mut pool = CoreMempool::new(100);
    add(&mut pool, txn(X, 1, 50), 1);
    add(&mut pool, txn(X, 0, 10), 2);
    add(&mut pool, txn(Y, 0, 20), 3);
    assert_eq!(pool.get_block(10, &vec![]), vec![ptr(Y, 0), ptr(X, 0), ptr(X, 1)]);
}

#[test]
fn parked_transaction_is_not_served() {
    let mut pool = CoreMempool::new(100);
    assert_eq!(add(&mut pool, txn(Y, 5, 100), 1), MempoolAddTransactionStatusCode::Valid);
    assert_eq!(pool.expected_sequence(Y), 0);
    assert!(pool.get_block(10, &vec![]).is_empty());
    pool.commit_transaction(Y, 4);
    assert_eq!(pool.expected_sequence(Y), 5);
    assert_eq!(pool.get_block(10, &vec![]), vec![ptr(Y, 5)]);
}

#[test]
fn parked_transaction_served_once_gap_fills() {
    let mut pool = CoreMempool::new(100);
    add(&mut pool, txn(Y, 5, 100), 1);
    for s in 0..4u64 {
        add(&mut pool, txn(Y, s, 1), 2 + s);
    }
    assert!(pool.get_block(10, &vec![]).len() == 4);
    add(&mut pool, txn(Y, 4, 1), 9);
    let block = pool.get_block(10, &vec![]);
    let seqs: Vec<u64> = block.iter().map(|p| p.seq).collect();
    assert_eq!(seqs, vec![0, 1, 2, 3, 4, 5]);
}

#[test]
fn block_respects_max_size() {
    let mut pool = CoreMempool::new(100);
    add(&mut pool, txn(X, 0, 10), 1);
    add(&mut pool, txn(X, 1, 10), 2);
    add(&mut pool, txn(Y, 0, 30), 3);
    assert_eq!(pool.get_block(2, &vec![]), vec![ptr(Y, 0), ptr(X, 0)]);
    assert!(pool.get_block(0, &vec![]).is_empty());
}

#[test]
fn excluded_transactions_are_not_served_again() {
    let mut pool = CoreMempool::new(100);
    add(&mut pool, txn(X, 0, 10), 1);
    add(&mut pool, txn(X, 1, 5), 2);
    add(&mut pool, txn(Y, 0, 1), 3);
    let first = pool.get_block(1, &vec![]);
    assert_eq!(first, vec![ptr(X, 0)]);
    let second = pool.get_block(10, &first);
    assert_eq!(second, vec![ptr(X, 1), ptr(Y, 0)]);
    let mut seen = first.clone();
    seen.extend(second.iter().copied());
    assert!(pool.get_block(10, &seen).is_empty());
    assert_eq!(pool.get_block(10, &vec![ptr(Y, 0)]), vec![ptr(X, 0), ptr(X, 1)]);
}

#[test]
fn price_orders_ready_transactions_across_accounts() {
    let mut pool = CoreMempool::new(100);
    add(&mut pool, txn(X, 0, 10), 1);
    add(&mut pool, txn(Y, 0, 20), 2);
    assert_eq!(pool.get_block(10, &vec![]), vec![ptr(Y, 0), ptr(X, 0)]);
}

#[test]
fn equal_prices_break_ties_by_insertion_then_account() {
    let mut pool = CoreMempool::new(100);
    add(&mut pool, txn(Y, 0, 10), 1);
    add(&mut pool, txn(X, 0, 10), 2);
    assert_eq!(pool.get_block(10, &vec![]), vec![ptr(Y, 0), ptr(X, 0)]);
    let mut pool = CoreMempool::new(100);
    add(&mut pool, txn(Y, 0, 10), 1);
    add(&mut pool, txn(X, 0, 10), 1);
    assert_eq!(pool.get_block(10, &vec![]), vec![ptr(X, 0), ptr(Y, 0)]);
}

#[test]
fn commit_twice_is_commit_once() {
    let mut pool = CoreMempool::new(100);
    for s in 0..4u64 {
        add(&mut pool, txn(X, s, 10), s);
    }
    pool.commit_transaction(X, 1);
    let len_once = pool.len();
    let block_once = pool.get_block(10, &vec![]);
    let exp_once = pool.expected_sequence(X);
    pool.commit_transaction(X, 1);
    assert_eq!(len_once, 2);
    assert_eq!(exp_once, 2);
    assert_eq!(pool.len(), len_once);
    assert_eq!(pool.get_block(10, &vec![]), block_once);
    assert_eq!(pool.expected_sequence(X), exp_once);
    assert!(pool.get_transaction(X, 1).is_none());
    assert!(pool.get_transaction(X, 2).is_some());
}

#[test]
fn commit_of_lower_sequence_keeps_expected() {
    let mut pool = CoreMempool::new(100);
    pool.commit_transaction(X, 9);
    pool.commit_transaction(X, 3);
    assert_eq!(pool.expected_sequence(X), 10);
}

#[test]
fn gc_removes_expired_transactions() {
    let mut pool = CoreMempool::new(100);
    add(&mut pool, txn_expiring(X, 0, 10, 5), 1);
    add(&mut pool, txn_expiring(X, 1, 10, 50), 1);
    add(&mut pool, txn_expiring(Y, 0, 10, 10), 1);
    pool.gc(10);
    assert_eq!(pool.len(), 1);
    assert!(pool.get_transaction(X, 0).is_none());
    assert!(pool.get_transaction(Y, 0).is_none());
    assert_eq!(pool.get_transaction(X, 1).map(|t| t.expiration), Some(50));
    assert!(pool.get_block(10, &vec![]).is_empty());
}

#[test]
fn full_pool_rejects_without_cheaper_resident() {
    let mut pool = CoreMempool::new(2);
    add(&mut pool, txn(X, 0, 5), 1);
    add(&mut pool, txn(Y, 0, 6), 2);
    assert_eq!(add(&mut pool, txn(X, 1, 5), 3), MempoolAddTransactionStatusCode::MempoolIsFull);
    assert_eq!(pool.len(), 2);
    assert!(pool.get_transaction(X, 1).is_none());
}

#[test]
fn full_pool_evicts_lowest_priority_resident() {
    let mut pool = CoreMempool::new(2);
    add(&mut pool, txn(X, 0, 5), 1);
    add(&mut pool, txn(Y, 0, 6), 2);
    assert_eq!(add(&mut pool, txn(Y, 1, 7), 3), MempoolAddTransactionStatusCode::Valid);
    assert_eq!(pool.len(), 2);
    assert!(pool.get_transaction(X, 0).is_none());
    assert_eq!(pool.get_block(10, &vec![]), vec![ptr(Y, 0), ptr(Y, 1)]);
}

#[test]
fn zero_capacity_pool_is_always_full() {
    let mut pool = CoreMempool::new(0);
    assert_eq!(add(&mut pool, txn(X, 0, 5), 1), MempoolAddTransactionStatusCode::MempoolIsFull);
    assert_eq!(pool.len(), 0);
}

#[test]
fn stale_and_duplicate_sequence_numbers_are_rejected() {
    let mut pool = CoreMempool::new(10);
    let r = pool.add_txn(txn(X, 2, 10), 3, true, 1, TimelineState::NotReady);
    assert_eq!(r, MempoolAddTransactionStatusCode::InvalidSeqNumber);
    assert_eq!(pool.expected_sequence(X), 0);
    assert_eq!(add(&mut pool, txn(X, 0, 10), 1), MempoolAddTransactionStatusCode::Valid);
    assert_eq!(add(&mut pool, txn(X, 0, 10), 2), MempoolAddTransactionStatusCode::InvalidSeqNumber);
    assert_eq!(add(&mut pool, txn(X, 0, 9), 2), MempoolAddTransactionStatusCode::InvalidSeqNumber);
    assert_eq!(pool.len(), 1);
}

#[test]
fn higher_price_replaces_same_slot() {
    let mut pool = CoreMempool::new(10);
    add(&mut pool, txn(X, 0, 10), 1);
    assert_eq!(add(&mut pool, txn(X, 0, 11), 2), MempoolAddTransactionStatusCode::Valid);
    assert_eq!(pool.len(), 1);
    let t = pool.get_transaction(X, 0).unwrap();
    assert_eq!(t.gas_price, 11);
    assert_eq!(t.insertion_time, 2);
}

#[test]
fn unaffordable_transaction_is_rejected() {
    let mut pool = CoreMempool::new(10);
    let r = pool.add_txn(txn(X, 0, 10), 0, false, 1, TimelineState::NotReady);
    assert_eq!(r, MempoolAddTransactionStatusCode::InsufficientBalance);
    assert_eq!(pool.len(), 0);
}

#[test]
fn admission_refreshes_expected_sequence() {
    let mut pool = CoreMempool::new(10);
    let r = pool.add_txn(txn(X, 4, 10), 4, true, 1, TimelineState::NotReady);
    assert_eq!(r, MempoolAddTransactionStatusCode::Valid);
    assert_eq!(pool.expected_sequence(X), 4);
    assert_eq!(pool.get_block(10, &vec![]), vec![ptr(X, 4)]);
}

#[test]
fn timeline_reads_incrementally() {
    let mut pool = CoreMempool::new(10);
    add(&mut pool, txn(X, 0, 10), 1);
    pool.add_txn(txn(X, 1, 10), 0, true, 1, TimelineState::InPool);
    add(&mut pool, txn(Y, 0, 10), 1);
    add(&mut pool, txn(Y, 1, 10), 1);
    let (first, cursor) = pool.read_timeline(0, 2);
    assert_eq!(
        first,
        vec![
            TimelineEntry { position: 1, sender: X, seq: 0 },
            TimelineEntry { position: 2, sender: Y, seq: 0 },
        ]
    );
    assert_eq!(cursor, 2);
    let (rest, cursor) = pool.read_timeline(cursor, 10);
    assert_eq!(rest, vec![TimelineEntry { position: 3, sender: Y, seq: 1 }]);
    assert_eq!(cursor, 3);
    let (none, cursor) = pool.read_timeline(cursor, 10);
    assert!(none.is_empty());
    assert_eq!(cursor, 3);
}

#[test]
fn timeline_skips_removed_records() {
    let mut pool = CoreMempool::new(10);
    add(&mut pool, txn(X, 0, 10), 1);
    add(&mut pool, txn(Y, 0, 10), 1);
    pool.commit_transaction(X, 0);
    let (entries, cursor) = pool.read_timeline(0, 10);
    assert_eq!(entries, vec![TimelineEntry { position: 2, sender: Y, seq: 0 }]);
    assert_eq!(cursor, 2);
}

#[test]
fn admission_drops_records_below_refreshed_sequence() {
    let mut pool = CoreMempool::new(10);
    add(&mut pool, txn(X, 0, 10), 1);
    add(&mut pool, txn(X, 1, 10), 1);
    add(&mut pool, txn(Y, 0, 10), 1);
    let r = pool.add_txn(txn(X, 3, 10), 2, true, 2, TimelineState::NotReady);
    assert_eq!(r, MempoolAddTransactionStatusCode::Valid);
    assert_eq!(pool.len(), 2);
    assert!(pool.get_transaction(X, 0).is_none());
    assert!(pool.get_transaction(X, 1).is_none());
    assert_eq!(pool.expected_sequence(X), 2);
    assert_eq!(pool.get_block(10, &vec![]), vec![ptr(Y, 0)]);
}

#[test]
fn excluded_predecessor_not_held_keeps_successor_parked() {
    let mut pool = CoreMempool::new(100);
    add(&mut pool, txn(Y, 1, 10), 1);
    assert!(pool.get_block(10, &vec![ptr(Y, 0)]).is_empty());
    let excl: Vec<TxnPointer> = (0..5u64).map(|s| ptr(Y, s)).collect();
    add(&mut pool, txn(Y, 5, 100), 2);
    assert!(pool.get_block(10, &excl).is_empty());
}

#[test]
fn proposed_predecessor_that_expires_parks_successor() {
    let mut pool = CoreMempool::new(100);
    add(&mut pool, txn_expiring(Y, 0, 10, 5), 1);
    add(&mut pool, txn(Y, 1, 10), 2);
    let first = pool.get_block(1, &vec![]);
    assert_eq!(first, vec![ptr(Y, 0)]);
    assert_eq!(pool.get_block(10, &first), vec![ptr(Y, 1)]);
    pool.gc(5);
    assert!(pool.get_block(10, &first).is_empty());
}

#[test]
fn block_transactions_are_the_held_records() {
    let mut pool = CoreMempool::new(100);
    add(&mut pool, txn(X, 0, 10), 1);
    add(&mut pool, txn(X, 1, 5), 2);
    add(&mut pool, txn(Y, 0, 7), 3);
    let block = pool.get_block_transactions(10, &vec![]);
    let summary: Vec<(u64, u64, u64)> = block.iter().map(|t| (t.sender, t.seq, t.gas_price)).collect();
    assert_eq!(summary, vec![(X, 0, 10), (Y, 0, 7), (X, 1, 5)]);
    assert_eq!(block[0].bytes, vec![X as u8, 0]);
}

use mempool::mock::{LocalMockMempool, ADDRESS_LENGTH};
use mempool::types::MempoolAddTransactionStatusCode;

#[test]
fn mock_answers_by_sender_address() {
    let mock = LocalMockMempool::new();
    let cases = [
        (100u8, MempoolAddTransactionStatusCode::InsufficientBalance),
        (101u8, MempoolAddTransactionStatusCode::InvalidSeqNumber),
        (102u8, MempoolAddTransactionStatusCode::InvalidUpdate),
        (103u8, MempoolAddTransactionStatusCode::Valid),
        (104u8, MempoolAddTransactionStatusCode::MempoolIsFull),
        (1u8, MempoolAddTransactionStatusCode::Valid),
    ];
    for (byte, status) in cases.iter() {
        let sender = [*byte; ADDRESS_LENGTH];
        assert_eq!(mock.add_transaction_with_validation(&sender), *status);
    }
    let mut mixed = [100u8; ADDRESS_LENGTH];
    mixed[3] = 101;
    assert_eq!(mock.add_transaction_with_validation(&mixed), MempoolAddTransactionStatusCode::Valid);
    assert_eq!(mock.add_transaction_with_validation(&[100u8; 4]), MempoolAddTransactionStatusCode::Valid);
}

#[test]
fn mock_health_by_elapsed_time() {
    assert!(LocalMockMempool::is_healthy_after(0));
    assert!(LocalMockMempool::is_healthy_after(299));
    assert!(!LocalMockMempool::is_healthy_after(300));
    assert!(!LocalMockMempool::is_healthy_after(500));
    assert!(LocalMockMempool::is_healthy_after(501));
    let mock = LocalMockMempool::new();
    assert!(mock.health_check());
}

#[test]
fn mock_health_by_clock_reading() {
    assert!(LocalMockMempool::healthy_reading(None));
    assert!(LocalMockMempool::healthy_reading(Some(100)));
    assert!(!LocalMockMempool::healthy_reading(Some(400)));
    assert!(LocalMockMempool::healthy_reading(Some(501)));
}

use vstd::prelude::*;

use crate::types::MempoolAddTransactionStatusCode;

verus! {

/// Length of an account address in bytes.
pub const ADDRESS_LENGTH: usize = 32;

#[verifier::external_type_specification]
#[verifier::external_body]
pub struct ExSystemTime(std::time::SystemTime);

/// Relies on std::time::SystemTime::now: the current wall-clock time.
#[verifier::external_body]
fn system_now() -> (r: std::time::SystemTime) {
    std::time::SystemTime::now()
}

/// Relies on std::time::SystemTime::elapsed: the whole milliseconds since
/// `since`, or `None` when the clock reads earlier than `since`.
#[verifier::external_body]
fn elapsed_millis(since: &std::time::SystemTime) -> (r: Option<u64>) {
    match since.elapsed() {
        Ok(d) => Some(d.as_millis() as u64),
        Err(_) => None,
    }
}

/// `s` is an address whose bytes all equal `b`.
pub open spec fn address_filled_with(s: Seq<u8>, b: u8) -> bool {
    s.len() == ADDRESS_LENGTH && forall|i: int| 0 <= i < s.len() ==> s[i] == b
}

/// The status the mock answers for a sender address: each of five reserved
/// addresses (every byte 100, 101, 102, 103 or 104) selects one status, and
/// any other sender is accepted.
pub open spec fn mock_status(sender: Seq<u8>) -> MempoolAddTransactionStatusCode {
    if address_filled_with(sender, 100) {
        MempoolAddTransactionStatusCode::InsufficientBalance
    } else if address_filled_with(sender, 101) {
        MempoolAddTransactionStatusCode::InvalidSeqNumber
    } else if address_filled_with(sender, 102) {
        MempoolAddTransactionStatusCode::InvalidUpdate
    } else if address_filled_with(sender, 103) {
        MempoolAddTransactionStatusCode::Valid
    } else if address_filled_with(sender, 104) {
        MempoolAddTransactionStatusCode::MempoolIsFull
    } else {
        MempoolAddTransactionStatusCode::Valid
    }
}

fn is_filled_with(s: &[u8], b: u8) -> (r: bool)
    ensures
        r == address_filled_with(s@, b),
{
    if s.len() != ADDRESS_LENGTH {
        return false;
    }
    let mut i: usize = 0;
    while i < s.len()
        invariant
            i <= s@.len(),
            forall|j: int| 0 <= j < i ==> s@[j] == b,
        decreases s@.len() - i,
    {
        if s[i] != b {
            return false;
        }
        i += 1;
    }
    true
}

/// A stand-in for the pool's admission service, for tests and fuzzing: it
/// answers by sender address and reports health by the time since creation.
#[derive(Clone, Copy)]
pub struct LocalMockMempool {
    created_time: std::time::SystemTime,
}

/// Health as the mock reports it after `elapsed_ms` milliseconds.
pub open spec fn mock_healthy(elapsed_ms: u64) -> bool {
    elapsed_ms > 500 || elapsed_ms < 300
}

impl LocalMockMempool {
    /// Creates a new instance, stamped with the current time.
    pub fn new() -> (r: Self) {
        LocalMockMempool { created_time: system_now() }
    }

    /// The admission status for a transaction from `sender`.
    pub fn add_transaction_with_validation(&self, sender: &[u8]) -> (r:
        MempoolAddTransactionStatusCode)
        ensures
            r == mock_status(sender@),
    {
        if is_filled_with(sender, 100) {
            MempoolAddTransactionStatusCode::InsufficientBalance
        } else if is_filled_with(sender, 101) {
            MempoolAddTransactionStatusCode::InvalidSeqNumber
        } else if is_filled_with(sender, 102) {
            MempoolAddTransactionStatusCode::InvalidUpdate
        } else if is_filled_with(sender, 103) {
            MempoolAddTransactionStatusCode::Valid
        } else if is_filled_with(sender, 104) {
            MempoolAddTransactionStatusCode::MempoolIsFull
        } else {
            MempoolAddTransactionStatusCode::Valid
        }
    }

    /// Health after `elapsed_ms` milliseconds since creation.
    pub fn is_healthy_after(elapsed_ms: u64) -> (r: bool)
        ensures
            r == mock_healthy(elapsed_ms),
    {
        elapsed_ms > 500 || elapsed_ms < 300
    }

    /// Health now; a clock that reads earlier than the creation time counts
    /// as no time elapsed.
    pub fn health_check(&self) -> bool {
        Self::healthy_reading(elapsed_millis(&self.created_time))
    }

    /// Health for a clock reading of `elapsed` milliseconds since creation;
    /// `None`, a clock earlier than the creation time, counts as no time.
    pub fn healthy_reading(elapsed: Option<u64>) -> (r: bool)
        ensures
            r == mock_healthy(
                match elapsed {
                    Some(ms) => ms,
                    None => 0,
                },
            ),
    {
        let ms = match elapsed {
            Some(ms) => ms,
            None => 0,
        };
        Self::is_healthy_after(ms)
    }
}

} // verus!

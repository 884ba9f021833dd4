use vstd::prelude::*;

verus! {

/// Next sequence number the chain accepts from one account.
#[derive(Clone, Copy, Debug, PartialEq, Eq, Structural)]
pub struct AccountState {
    pub address: u64,
    pub expected: u64,
}

/// No address appears twice in the table.
pub open spec fn accounts_unique(accts: Seq<AccountState>) -> bool {
    forall|i: int, j: int|
        0 <= i < accts.len() && 0 <= j < accts.len() && i != j ==> accts[i].address
            != accts[j].address
}

pub open spec fn has_account(accts: Seq<AccountState>, a: u64) -> bool {
    exists|i: int| 0 <= i < accts.len() && accts[i].address == a
}

/// Expected sequence number of `a`: its entry, or 0 for an account never seen.
pub open spec fn expected_of(accts: Seq<AccountState>, a: u64) -> u64 {
    if has_account(accts, a) {
        accts[choose|i: int| 0 <= i < accts.len() && accts[i].address == a].expected
    } else {
        0
    }
}

proof fn lemma_expected_at(accts: Seq<AccountState>, i: int)
    requires
        accounts_unique(accts),
        0 <= i < accts.len(),
    ensures
        expected_of(accts, accts[i].address) == accts[i].expected,
{
    let a = accts[i].address;
    assert(has_account(accts, a));
    let j = choose|j: int| 0 <= j < accts.len() && accts[j].address == a;
    assert(j == i);
}

/// Index of the entry for `a`, if any.
pub fn find_account(accts: &Vec<AccountState>, a: u64) -> (r: Option<usize>)
    ensures
        match r {
            Some(i) => i < accts@.len() && accts@[i as int].address == a,
            None => !has_account(accts@, a),
        },
{
    let mut i: usize = 0;
    while i < accts.len()
        invariant
            i <= accts@.len(),
            forall|j: int| 0 <= j < i ==> accts@[j].address != a,
        decreases accts@.len() - i,
    {
        if accts[i].address == a {
            return Some(i);
        }
        i += 1;
    }
    None
}

/// Expected sequence number of `a`.
pub fn expected_sequence(accts: &Vec<AccountState>, a: u64) -> (r: u64)
    requires
        accounts_unique(accts@),
    ensures
        r == expected_of(accts@, a),
{
    match find_account(accts, a) {
        Some(i) => {
            proof {
                lemma_expected_at(accts@, i as int);
            }
            accts[i].expected
        },
        None => 0,
    }
}

/// Sets the expected sequence number of `a` to `e`, leaving other accounts alone.
pub fn set_expected(accts: &mut Vec<AccountState>, a: u64, e: u64)
    requires
        accounts_unique(old(accts)@),
    ensures
        accounts_unique(final(accts)@),
        has_account(final(accts)@, a),
        forall|b: u64| b != a ==> has_account(final(accts)@, b) == has_account(old(accts)@, b),
        forall|b: u64|
            #[trigger] expected_of(final(accts)@, b) == if b == a {
                e
            } else {
                expected_of(old(accts)@, b)
            },
{
    let ghost pre = accts@;
    match find_account(accts, a) {
        Some(i) => {
            accts.set(i, AccountState { address: a, expected: e });
            proof {
                let post = accts@;
                assert forall|b: u64| b != a implies has_account(post, b) == has_account(pre, b) by {
                    if has_account(pre, b) {
                        let j = choose|j: int| 0 <= j < pre.len() && pre[j].address == b;
                        assert(post[j].address == b);
                    }
                    if has_account(post, b) {
                        let j = choose|j: int| 0 <= j < post.len() && post[j].address == b;
                        assert(pre[j].address == b);
                    }
                }
                assert forall|b: u64| #[trigger]
                    expected_of(post, b) == if b == a {
                        e
                    } else {
                        expected_of(pre, b)
                    } by {
                    if b == a {
                        lemma_expected_at(post, i as int);
                    } else if has_account(pre, b) {
                        let j = choose|j: int| 0 <= j < pre.len() && pre[j].address == b;
                        lemma_expected_at(pre, j);
                        lemma_expected_at(post, j);
                    }
                }
                assert(post[i as int].address == a);
            }
        },
        None => {
            accts.push(AccountState { address: a, expected: e });
            proof {
                let post = accts@;
                let n = pre.len() as int;
                assert forall|b: u64| b != a implies has_account(post, b) == has_account(pre, b) by {
                    if has_account(pre, b) {
                        let j = choose|j: int| 0 <= j < pre.len() && pre[j].address == b;
                        assert(post[j].address == b);
                    }
                    if has_account(post, b) {
                        let j = choose|j: int| 0 <= j < post.len() && post[j].address == b;
                        assert(j != n);
                        assert(pre[j].address == b);
                    }
                }
                assert forall|b: u64| #[trigger]
                    expected_of(post, b) == if b == a {
                        e
                    } else {
                        expected_of(pre, b)
                    } by {
                    if b == a {
                        lemma_expected_at(post, n);
                    } else if has_account(pre, b) {
                        let j = choose|j: int| 0 <= j < pre.len() && pre[j].address == b;
                        lemma_expected_at(pre, j);
                        lemma_expected_at(post, j);
                    }
                }
                assert(post[n].address == a);
            }
        },
    }
}

} // verus!

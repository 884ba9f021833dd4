use vstd::prelude::*;

use crate::accounts::{AccountState, accounts_unique, expected_of, expected_sequence};
use crate::store::{find_key, has_key};
use crate::types::{TxnPointer, TxnRecord, key_of, precedes};

verus! {

/// Every sequence number of `a` from `exp` up to (not including) `s` is held
/// in `txns`, and excluded or already chosen.
pub open spec fn covered(
    txns: Seq<TxnRecord>,
    exp: u64,
    a: u64,
    s: int,
    excl: Seq<TxnPointer>,
    chosen: Seq<TxnPointer>,
) -> bool
    decreases s - exp,
{
    if s <= exp {
        true
    } else {
        let p = TxnPointer { sender: a, seq: (s - 1) as u64 };
        has_key(txns, p) && (excl.contains(p) || chosen.contains(p)) && covered(
            txns,
            exp,
            a,
            s - 1,
            excl,
            chosen,
        )
    }
}

/// `t` may be the next transaction of a block that already holds `chosen`:
/// it is neither excluded nor chosen, it is not stale, and every earlier
/// sequence number of its account from the expected one is held (so `t` is
/// ready) and is excluded or chosen.
pub open spec fn eligible(
    txns: Seq<TxnRecord>,
    accts: Seq<AccountState>,
    excl: Seq<TxnPointer>,
    chosen: Seq<TxnPointer>,
    t: TxnRecord,
) -> bool {
    let exp = expected_of(accts, t.sender);
    &&& !excl.contains(key_of(t))
    &&& !chosen.contains(key_of(t))
    &&& t.seq >= exp
    &&& covered(txns, exp, t.sender, t.seq as int, excl, chosen)
}

/// Index of the first eligible transaction in block order among `txns[0..n]`.
pub open spec fn best_prefix(
    txns: Seq<TxnRecord>,
    accts: Seq<AccountState>,
    excl: Seq<TxnPointer>,
    chosen: Seq<TxnPointer>,
    n: int,
) -> Option<int>
    decreases n,
{
    if n <= 0 {
        None
    } else {
        let prev = best_prefix(txns, accts, excl, chosen, n - 1);
        if eligible(txns, accts, excl, chosen, txns[n - 1]) && match prev {
            None => true,
            Some(b) => precedes(txns[n - 1], txns[b]),
        } {
            Some(n - 1)
        } else {
            prev
        }
    }
}

/// Extends `chosen` greedily, at most `fuel` times, each time with the
/// eligible transaction that comes first in block order.
pub open spec fn block_from(
    txns: Seq<TxnRecord>,
    accts: Seq<AccountState>,
    excl: Seq<TxnPointer>,
    chosen: Seq<TxnPointer>,
    fuel: nat,
) -> Seq<TxnPointer>
    decreases fuel,
{
    if fuel == 0 {
        chosen
    } else {
        match best_prefix(txns, accts, excl, chosen, txns.len() as int) {
            None => chosen,
            Some(i) => block_from(txns, accts, excl, chosen.push(key_of(txns[i])), (fuel - 1) as nat),
        }
    }
}

/// The block of at most `max` transactions selected from `txns`.
pub open spec fn block(
    txns: Seq<TxnRecord>,
    accts: Seq<AccountState>,
    excl: Seq<TxnPointer>,
    max: nat,
) -> Seq<TxnPointer> {
    block_from(txns, accts, excl, Seq::empty(), max)
}

/// Whether `p` occurs in `v`.
pub fn contains_ptr(v: &Vec<TxnPointer>, p: TxnPointer) -> (r: bool)
    ensures
        r == v@.contains(p),
{
    let mut i: usize = 0;
    while i < v.len()
        invariant
            i <= v@.len(),
            forall|j: int| 0 <= j < i ==> v@[j] != p,
        decreases v@.len() - i,
    {
        if v[i] == p {
            assert(v@[i as int] == p);
            return true;
        }
        i += 1;
    }
    false
}

fn is_covered(
    txns: &Vec<TxnRecord>,
    exp: u64,
    a: u64,
    s: u64,
    excl: &Vec<TxnPointer>,
    chosen: &Vec<TxnPointer>,
) -> (r: bool)
    ensures
        r == covered(txns@, exp, a, s as int, excl@, chosen@),
{
    let mut cur: u64 = s;
    while cur > exp
        invariant
            covered(txns@, exp, a, s as int, excl@, chosen@) == covered(
                txns@,
                exp,
                a,
                cur as int,
                excl@,
                chosen@,
            ),
        decreases cur - exp,
    {
        let p = TxnPointer { sender: a, seq: cur - 1 };
        if find_key(txns, p).is_none() || !(contains_ptr(excl, p) || contains_ptr(chosen, p)) {
            return false;
        }
        cur = cur - 1;
    }
    true
}

fn is_eligible(
    txns: &Vec<TxnRecord>,
    accts: &Vec<AccountState>,
    excl: &Vec<TxnPointer>,
    chosen: &Vec<TxnPointer>,
    t: &TxnRecord,
) -> (r: bool)
    requires
        accounts_unique(accts@),
    ensures
        r == eligible(txns@, accts@, excl@, chosen@, *t),
{
    let k = t.key();
    if contains_ptr(excl, k) || contains_ptr(chosen, k) {
        return false;
    }
    let exp = expected_sequence(accts, t.sender);
    if t.seq < exp {
        return false;
    }
    is_covered(txns, exp, t.sender, t.seq, excl, chosen)
}

fn best_candidate(
    txns: &Vec<TxnRecord>,
    accts: &Vec<AccountState>,
    excl: &Vec<TxnPointer>,
    chosen: &Vec<TxnPointer>,
) -> (r: Option<usize>)
    requires
        accounts_unique(accts@),
    ensures
        match r {
            Some(i) => i < txns@.len() && best_prefix(
                txns@,
                accts@,
                excl@,
                chosen@,
                txns@.len() as int,
            ) == Some(i as int),
            None => best_prefix(txns@, accts@, excl@, chosen@, txns@.len() as int) is None,
        },
{
    let mut best: Option<usize> = None;
    let mut i: usize = 0;
    while i < txns.len()
        invariant
            accounts_unique(accts@),
            i <= txns@.len(),
            match best {
                Some(b) => b < i && best_prefix(txns@, accts@, excl@, chosen@, i as int) == Some(
                    b as int,
                ),
                None => best_prefix(txns@, accts@, excl@, chosen@, i as int) is None,
            },
        decreases txns@.len() - i,
    {
        if is_eligible(txns, accts, excl, chosen, &txns[i]) {
            match best {
                None => {
                    best = Some(i);
                },
                Some(b) => {
                    if txns[i].precedes(&txns[b]) {
                        best = Some(i);
                    }
                },
            }
        }
        i += 1;
    }
    best
}

/// Selects a block of at most `max` transactions of `txns`, skipping `excl`.
pub fn select_block(
    txns: &Vec<TxnRecord>,
    accts: &Vec<AccountState>,
    excl: &Vec<TxnPointer>,
    max: u64,
) -> (r: Vec<TxnPointer>)
    requires
        accounts_unique(accts@),
    ensures
        r@ == block(txns@, accts@, excl@, max as nat),
{
    let mut out: Vec<TxnPointer> = Vec::new();
    let mut done = false;
    while !done && (out.len() as u64) < max
        invariant
            accounts_unique(accts@),
            out@.len() <= max,
            block_from(txns@, accts@, excl@, out@, (max - out@.len()) as nat) == block(
                txns@,
                accts@,
                excl@,
                max as nat,
            ),
            done ==> block_from(txns@, accts@, excl@, out@, (max - out@.len()) as nat) == out@,
        decreases max - out@.len(), if done {
            0int
        } else {
            1int
        },
    {
        match best_candidate(txns, accts, excl, &out) {
            None => {
                done = true;
            },
            Some(i) => {
                let k = txns[i].key();
                out.push(k);
            },
        }
    }
    out
}


/// Position `j` of `r` holds the transaction picked after `r[0..j]`.
pub open spec fn picked_at(
    txns: Seq<TxnRecord>,
    accts: Seq<AccountState>,
    excl: Seq<TxnPointer>,
    r: Seq<TxnPointer>,
    j: int,
) -> bool {
    match best_prefix(txns, accts, excl, r.take(j), txns.len() as int) {
        Some(i) => 0 <= i < txns.len() && r[j] == key_of(txns[i]),
        None => false,
    }
}

proof fn lemma_best_prefix(
    txns: Seq<TxnRecord>,
    accts: Seq<AccountState>,
    excl: Seq<TxnPointer>,
    chosen: Seq<TxnPointer>,
    n: int,
)
    requires
        0 <= n <= txns.len(),
    ensures
        match best_prefix(txns, accts, excl, chosen, n) {
            Some(b) => 0 <= b < n && eligible(txns, accts, excl, chosen, txns[b]) && forall|m: int|
                0 <= m < n && eligible(txns, accts, excl, chosen, #[trigger] txns[m]) ==> !precedes(
                    txns[m],
                    txns[b],
                ),
            None => forall|m: int|
                0 <= m < n ==> !eligible(txns, accts, excl, chosen, #[trigger] txns[m]),
        },
    decreases n,
{
    if n > 0 {
        lemma_best_prefix(txns, accts, excl, chosen, n - 1);
    }
}

proof fn lemma_block_from_steps(
    txns: Seq<TxnRecord>,
    accts: Seq<AccountState>,
    excl: Seq<TxnPointer>,
    chosen: Seq<TxnPointer>,
    fuel: nat,
)
    ensures
        ({
            let r = block_from(txns, accts, excl, chosen, fuel);
            &&& chosen.len() <= r.len() <= chosen.len() + fuel
            &&& r.take(chosen.len() as int) =~= chosen
            &&& forall|j: int|
                chosen.len() <= j < r.len() ==> #[trigger] picked_at(txns, accts, excl, r, j)
        }),
    decreases fuel,
{
    if fuel > 0 {
        match best_prefix(txns, accts, excl, chosen, txns.len() as int) {
            None => {},
            Some(i) => {
                let next = chosen.push(key_of(txns[i]));
                lemma_best_prefix(txns, accts, excl, chosen, txns.len() as int);
                lemma_block_from_steps(txns, accts, excl, next, (fuel - 1) as nat);
                let r = block_from(txns, accts, excl, next, (fuel - 1) as nat);
                assert(r.take(next.len() as int) =~= next);
                assert(r.take(chosen.len() as int) =~= chosen) by {
                    assert(r.take(chosen.len() as int) =~= next.take(chosen.len() as int));
                }
                let c = chosen.len() as int;
                assert(r[c] == next[c]);
                assert(picked_at(txns, accts, excl, r, c));
            },
        }
    }
}

/// The run of sequence numbers from `exp` below `s` is held in `txns` and
/// lies in `excl` or `chosen`.
proof fn lemma_covered(
    txns: Seq<TxnRecord>,
    exp: u64,
    a: u64,
    s: int,
    excl: Seq<TxnPointer>,
    chosen: Seq<TxnPointer>,
)
    requires
        s <= u64::MAX + 1,
        covered(txns, exp, a, s, excl, chosen),
    ensures
        forall|q: u64|
            exp <= q < s ==> #[trigger] excl.contains(TxnPointer { sender: a, seq: q })
                || #[trigger] chosen.contains(TxnPointer { sender: a, seq: q }),
        forall|q: u64|
            exp <= q < s ==> #[trigger] has_key(txns, TxnPointer { sender: a, seq: q }),
    decreases s - exp,
{
    if s > exp {
        lemma_covered(txns, exp, a, s - 1, excl, chosen);
    }
}

/// What each position of a selected block satisfies: it is a pooled
/// transaction that was eligible after the positions before it, and no
/// eligible transaction came before it in block order.
proof fn lemma_block_position(
    txns: Seq<TxnRecord>,
    accts: Seq<AccountState>,
    excl: Seq<TxnPointer>,
    max: nat,
    j: int,
) -> (i: int)
    requires
        0 <= j < block(txns, accts, excl, max).len(),
    ensures
        0 <= i < txns.len(),
        block(txns, accts, excl, max)[j] == key_of(txns[i]),
        eligible(txns, accts, excl, block(txns, accts, excl, max).take(j), txns[i]),
        forall|m: int|
            0 <= m < txns.len() && eligible(txns, accts,
                excl,
                block(txns, accts, excl, max).take(j),
                #[trigger] txns[m],
            ) ==> !precedes(txns[m], txns[i]),
{
    let r = block(txns, accts, excl, max);
    lemma_block_from_steps(txns, accts, excl, Seq::empty(), max);
    assert(picked_at(txns, accts, excl, r, j));
    lemma_best_prefix(txns, accts, excl, r.take(j), txns.len() as int);
    best_prefix(txns, accts, excl, r.take(j), txns.len() as int)->Some_0
}

/// A block never holds sequence number `s` of an account before every
/// outstanding smaller one, and holds only ready transactions: each sequence
/// number of that account from the expected one up to `s` is held in the
/// pool, and is excluded or appears earlier in the same block.
pub proof fn lemma_block_contiguous(
    txns: Seq<TxnRecord>,
    accts: Seq<AccountState>,
    excl: Seq<TxnPointer>,
    max: nat,
    j: int,
    q: u64,
)
    requires
        0 <= j < block(txns, accts, excl, max).len(),
        expected_of(accts, block(txns, accts, excl, max)[j].sender) <= q < block(
            txns,
            accts,
            excl,
            max,
        )[j].seq,
    ensures
        ({
            let p = TxnPointer { sender: block(txns, accts, excl, max)[j].sender, seq: q };
            &&& has_key(txns, p)
            &&& excl.contains(p) || exists|k: int|
                0 <= k < j && block(txns, accts, excl, max)[k] == p
        }),
{
    let r = block(txns, accts, excl, max);
    let i = lemma_block_position(txns, accts, excl, max, j);
    let t = txns[i];
    lemma_covered(
        txns,
        expected_of(accts, t.sender),
        t.sender,
        t.seq as int,
        excl,
        r.take(j),
    );
    let p = TxnPointer { sender: t.sender, seq: q };
    if !excl.contains(p) {
        assert(r.take(j).contains(p));
        let k = choose|k: int| 0 <= k < r.take(j).len() && r.take(j)[k] == p;
        assert(r[k] == p);
    }
}

/// A block holds no excluded transaction and no transaction twice; each of
/// its entries is a pooled transaction that is not stale.
pub proof fn lemma_block_excludes(
    txns: Seq<TxnRecord>,
    accts: Seq<AccountState>,
    excl: Seq<TxnPointer>,
    max: nat,
)
    ensures
        ({
            let r = block(txns, accts, excl, max);
            &&& r.len() <= max
            &&& forall|j: int| 0 <= j < r.len() ==> !excl.contains(#[trigger] r[j])
            &&& forall|j: int, k: int| 0 <= k < j < r.len() ==> r[k] != r[j]
            &&& forall|j: int|
                #![trigger r[j]]
                0 <= j < r.len() ==> exists|i: int|
                    0 <= i < txns.len() && key_of(#[trigger] txns[i]) == r[j] && txns[i].seq
                        >= expected_of(accts, txns[i].sender)
        }),
{
    let r = block(txns, accts, excl, max);
    lemma_block_from_steps(txns, accts, excl, Seq::empty(), max);
    assert forall|j: int| 0 <= j < r.len() implies !excl.contains(#[trigger] r[j]) && exists|
        i: int,
    |
        0 <= i < txns.len() && key_of(#[trigger] txns[i]) == r[j] && txns[i].seq >= expected_of(
            accts,
            txns[i].sender,
        ) by {
        let i = lemma_block_position(txns, accts, excl, max, j);
    }
    assert forall|j: int, k: int| 0 <= k < j < r.len() implies r[k] != r[j] by {
        let i = lemma_block_position(txns, accts, excl, max, j);
        assert(r.take(j)[k] == r[k]);
    }
}

/// Price order modulo contiguity: a pooled transaction that could have taken
/// position `j` of a block (it was eligible after `r[0..j]`) has a price no
/// higher than the one that did.
pub proof fn lemma_block_price_order(
    txns: Seq<TxnRecord>,
    accts: Seq<AccountState>,
    excl: Seq<TxnPointer>,
    max: nat,
    j: int,
    b: int,
    m: int,
)
    requires
        forall|x: int, y: int|
            0 <= x < txns.len() && 0 <= y < txns.len() && x != y ==> key_of(txns[x]) != key_of(
                txns[y],
            ),
        0 <= j < block(txns, accts, excl, max).len(),
        0 <= b < txns.len(),
        0 <= m < txns.len(),
        key_of(txns[b]) == block(txns, accts, excl, max)[j],
        eligible(txns, accts, excl, block(txns, accts, excl, max).take(j), txns[m]),
    ensures
        txns[m].gas_price <= txns[b].gas_price,
{
    let i = lemma_block_position(txns, accts, excl, max, j);
    assert(i == b);
}

/// A block depends on the account table only through each account's
/// expected sequence number.
pub proof fn lemma_block_same_expected(
    txns: Seq<TxnRecord>,
    accts1: Seq<AccountState>,
    accts2: Seq<AccountState>,
    excl: Seq<TxnPointer>,
    max: nat,
)
    requires
        forall|a: u64| #[trigger] expected_of(accts1, a) == expected_of(accts2, a),
    ensures
        block(txns, accts1, excl, max) == block(txns, accts2, excl, max),
{
    lemma_block_from_same_expected(txns, accts1, accts2, excl, Seq::empty(), max);
}

proof fn lemma_best_prefix_same_expected(
    txns: Seq<TxnRecord>,
    accts1: Seq<AccountState>,
    accts2: Seq<AccountState>,
    excl: Seq<TxnPointer>,
    chosen: Seq<TxnPointer>,
    n: int,
)
    requires
        forall|a: u64| #[trigger] expected_of(accts1, a) == expected_of(accts2, a),
    ensures
        best_prefix(txns, accts1, excl, chosen, n) == best_prefix(txns, accts2, excl, chosen, n),
    decreases n,
{
    if n > 0 {
        lemma_best_prefix_same_expected(txns, accts1, accts2, excl, chosen, n - 1);
        assert(expected_of(accts1, txns[n - 1].sender) == expected_of(accts2, txns[n - 1].sender));
    }
}

proof fn lemma_block_from_same_expected(
    txns: Seq<TxnRecord>,
    accts1: Seq<AccountState>,
    accts2: Seq<AccountState>,
    excl: Seq<TxnPointer>,
    chosen: Seq<TxnPointer>,
    fuel: nat,
)
    requires
        forall|a: u64| #[trigger] expected_of(accts1, a) == expected_of(accts2, a),
    ensures
        block_from(txns, accts1, excl, chosen, fuel) == block_from(txns, accts2, excl, chosen, fuel),
    decreases fuel,
{
    if fuel > 0 {
        lemma_best_prefix_same_expected(txns, accts1, accts2, excl, chosen, txns.len() as int);
        match best_prefix(txns, accts1, excl, chosen, txns.len() as int) {
            None => {},
            Some(i) => {
                lemma_block_from_same_expected(
                    txns,
                    accts1,
                    accts2,
                    excl,
                    chosen.push(key_of(txns[i])),
                    (fuel - 1) as nat,
                );
            },
        }
    }
}

} // verus!

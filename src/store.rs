use vstd::prelude::*;

use crate::types::{TxnPointer, TxnRecord, key_of};

verus! {

/// Which records a removal pass drops.
#[derive(Clone, Copy, Debug, PartialEq, Eq, Structural)]
pub enum Removal {
    /// Records of `sender` with sequence number at most `seq`.
    Committed { sender: u64, seq: u64 },
    /// Records whose deadline is at most `now`.
    ExpiredBy { now: u64 },
    /// The record with identity `ptr`.
    Key { ptr: TxnPointer },
}

pub open spec fn removes(rule: Removal, t: TxnRecord) -> bool {
    match rule {
        Removal::Committed { sender, seq } => t.sender == sender && t.seq <= seq,
        Removal::ExpiredBy { now } => t.expiration <= now,
        Removal::Key { ptr } => key_of(t) == ptr,
    }
}

/// `s` with the records that `rule` drops taken out, order kept.
pub open spec fn without(s: Seq<TxnRecord>, rule: Removal) -> Seq<TxnRecord>
    decreases s.len(),
{
    if s.len() == 0 {
        s
    } else {
        let rest = without(s.subrange(1, s.len() as int), rule);
        if removes(rule, s[0]) {
            rest
        } else {
            seq![s[0]] + rest
        }
    }
}

/// Some record of `s` has identity `k`.
pub open spec fn has_key(s: Seq<TxnRecord>, k: TxnPointer) -> bool {
    exists|i: int| 0 <= i < s.len() && key_of(s[i]) == k
}

/// Index of the record with identity `k`, if any.
pub fn find_key(v: &Vec<TxnRecord>, k: TxnPointer) -> (r: Option<usize>)
    ensures
        match r {
            Some(i) => i < v@.len() && key_of(v@[i as int]) == k,
            None => !has_key(v@, k),
        },
{
    let mut i: usize = 0;
    while i < v.len()
        invariant
            i <= v@.len(),
            forall|j: int| 0 <= j < i ==> key_of(v@[j]) != k,
        decreases v@.len() - i,
    {
        if v[i].sender == k.sender && v[i].seq == k.seq {
            return Some(i);
        }
        i += 1;
    }
    None
}

/// No two records share an identity.
pub open spec fn keys_unique(s: Seq<TxnRecord>) -> bool {
    forall|i: int, j: int|
        0 <= i < s.len() && 0 <= j < s.len() && i != j ==> key_of(s[i]) != key_of(s[j])
}

/// Timeline positions grow along `s` and all lie below `next`.
pub open spec fn timeline_ordered(s: Seq<TxnRecord>, next: u64) -> bool {
    &&& forall|i: int, j: int|
        0 <= i < j < s.len() && s[i].timeline_pos is Some && s[j].timeline_pos is Some
            ==> s[i].timeline_pos->Some_0 < s[j].timeline_pos->Some_0
    &&& forall|i: int|
        0 <= i < s.len() && s[i].timeline_pos is Some ==> s[i].timeline_pos->Some_0 < next
}

impl Removal {
    pub fn matches(&self, t: &TxnRecord) -> (r: bool)
        ensures
            r == removes(*self, *t),
    {
        match self {
            Removal::Committed { sender, seq } => t.sender == *sender && t.seq <= *seq,
            Removal::ExpiredBy { now } => t.expiration <= *now,
            Removal::Key { ptr } => t.sender == ptr.sender && t.seq == ptr.seq,
        }
    }
}

/// What a removal pass keeps: records of `s` that `rule` does not drop, and
/// all of those.
pub proof fn lemma_without(s: Seq<TxnRecord>, rule: Removal)
    ensures
        without(s, rule).len() <= s.len(),
        forall|k: int|
            0 <= k < without(s, rule).len() ==> s.contains(#[trigger] without(s, rule)[k])
                && !removes(rule, without(s, rule)[k]),
        forall|k: int|
            0 <= k < s.len() && !removes(rule, #[trigger] s[k]) ==> without(s, rule).contains(
                s[k],
            ),
        (exists|k: int| 0 <= k < s.len() && removes(rule, #[trigger] s[k])) ==> without(
            s,
            rule,
        ).len() < s.len(),
    decreases s.len(),
{
    if s.len() > 0 {
        let tail = s.subrange(1, s.len() as int);
        lemma_without(tail, rule);
        let w = without(s, rule);
        let wt = without(tail, rule);
        assert forall|k: int| 0 <= k < w.len() implies s.contains(#[trigger] w[k]) && !removes(
            rule,
            w[k],
        ) by {
            if removes(rule, s[0]) {
                assert(tail.contains(wt[k]));
                let m = choose|m: int| 0 <= m < tail.len() && tail[m] == wt[k];
                assert(s[m + 1] == w[k]);
            } else if k == 0 {
                assert(s[0] == w[k]);
            } else {
                assert(w[k] == wt[k - 1]);
                assert(tail.contains(wt[k - 1]));
                let m = choose|m: int| 0 <= m < tail.len() && tail[m] == wt[k - 1];
                assert(s[m + 1] == w[k]);
            }
        }
        assert forall|k: int| 0 <= k < s.len() && !removes(rule, #[trigger] s[k]) implies w.contains(
            s[k],
        ) by {
            if k == 0 {
                assert(w[0] == s[0]);
            } else {
                assert(tail[k - 1] == s[k]);
                assert(wt.contains(s[k]));
                let m = choose|m: int| 0 <= m < wt.len() && wt[m] == s[k];
                if removes(rule, s[0]) {
                    assert(w[m] == s[k]);
                } else {
                    assert(w[m + 1] == s[k]);
                }
            }
        }
        if exists|k: int| 0 <= k < s.len() && removes(rule, #[trigger] s[k]) {
            let k = choose|k: int| 0 <= k < s.len() && removes(rule, #[trigger] s[k]);
            if k > 0 {
                assert(removes(rule, tail[k - 1]));
            }
        }
    }
}

/// A removal pass keeps identities unique and the timeline ordered.
pub proof fn lemma_without_keeps_order(s: Seq<TxnRecord>, rule: Removal, next: u64)
    ensures
        keys_unique(s) ==> keys_unique(without(s, rule)),
        timeline_ordered(s, next) ==> timeline_ordered(without(s, rule), next),
    decreases s.len(),
{
    if s.len() > 0 {
        let tail = s.subrange(1, s.len() as int);
        lemma_without_keeps_order(tail, rule, next);
        lemma_without(tail, rule);
        let w = without(s, rule);
        let wt = without(tail, rule);
        if !removes(rule, s[0]) {
            assert(w =~= seq![s[0]] + wt);
            assert forall|k: int| 0 <= k < wt.len() implies exists|m: int|
                1 <= m < s.len() && s[m] == #[trigger] wt[k] by {
                assert(tail.contains(wt[k]));
                let m = choose|m: int| 0 <= m < tail.len() && tail[m] == wt[k];
                assert(s[m + 1] == wt[k]);
            }
            if keys_unique(s) {
                assert(keys_unique(tail));
                assert forall|i: int, j: int|
                    0 <= i < w.len() && 0 <= j < w.len() && i != j implies key_of(w[i]) != key_of(
                    w[j],
                ) by {
                    if i == 0 {
                        let m = choose|m: int| 1 <= m < s.len() && s[m] == #[trigger] wt[j - 1];
                    } else if j == 0 {
                        let m = choose|m: int| 1 <= m < s.len() && s[m] == #[trigger] wt[i - 1];
                    }
                }
            }
            if timeline_ordered(s, next) {
                assert(timeline_ordered(tail, next));
                assert forall|i: int, j: int|
                    0 <= i < j < w.len() && w[i].timeline_pos is Some && w[j].timeline_pos is Some
                        implies w[i].timeline_pos->Some_0 < w[j].timeline_pos->Some_0 by {
                    if i == 0 {
                        let m = choose|m: int| 1 <= m < s.len() && s[m] == #[trigger] wt[j - 1];
                    }
                }
                assert forall|i: int| 0 <= i < w.len() && w[i].timeline_pos is Some implies w[i].timeline_pos->Some_0
                    < next by {
                    if i > 0 {
                        let m = choose|m: int| 1 <= m < s.len() && s[m] == #[trigger] wt[i - 1];
                    }
                }
            }
        } else {
            if keys_unique(s) {
                assert(keys_unique(tail));
            }
            if timeline_ordered(s, next) {
                assert(timeline_ordered(tail, next));
            }
        }
    }
}

/// Removing twice by the same rule removes nothing more.
pub proof fn lemma_without_idempotent(s: Seq<TxnRecord>, rule: Removal)
    ensures
        without(without(s, rule), rule) == without(s, rule),
    decreases s.len(),
{
    if s.len() > 0 {
        let tail = s.subrange(1, s.len() as int);
        lemma_without_idempotent(tail, rule);
        let wt = without(tail, rule);
        if !removes(rule, s[0]) {
            let w = seq![s[0]] + wt;
            assert(w.subrange(1, w.len() as int) =~= wt);
        }
    }
}

/// Takes out of `v` the records that `rule` drops, keeping the order of the rest.
pub fn remove_where(v: &mut Vec<TxnRecord>, rule: Removal)
    ensures
        final(v)@ == without(old(v)@, rule),
{
    let mut rest: Vec<TxnRecord> = Vec::new();
    std::mem::swap(&mut rest, v);
    let ghost orig = rest@;
    assert(v@ + without(rest@, rule) =~= without(orig, rule));
    while rest.len() > 0
        invariant
            v@ + without(rest@, rule) == without(orig, rule),
        decreases rest@.len(),
    {
        let ghost before = rest@;
        let t = rest.remove(0);
        assert(before.subrange(1, before.len() as int) =~= rest@);
        if !rule.matches(&t) {
            let ghost vb = v@;
            v.push(t);
            assert(v@ + without(rest@, rule) =~= vb + without(before, rule));
        }
    }
    assert(without(rest@, rule) =~= Seq::<TxnRecord>::empty());
    assert(v@ + without(rest@, rule) =~= v@);
}

} // verus!

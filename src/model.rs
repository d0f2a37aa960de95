//! The mathematical model of the ledger: sums of principal over a map of
//! records and over a list of persisted pairs, and the facts about them that
//! the ledger's proofs use.

use crate::ledger::StakingInfo;
use vstd::prelude::*;

verus! {

/// Sum of the principals over all records of `m`.
pub open spec fn sum_principal(m: Map<u64, StakingInfo>) -> nat
    decreases m.dom().len(),
    via sum_principal_decreases
{
    if m.dom().finite() && m.dom().len() > 0 {
        let k = choose|k: u64| m.dom().contains(k);
        m[k].amount as nat + sum_principal(m.remove(k))
    } else {
        0
    }
}

#[via_fn]
proof fn sum_principal_decreases(m: Map<u64, StakingInfo>) {
    if m.dom().finite() && m.dom().len() > 0 {
        if m.dom() =~= Set::empty() {
            assert(m.dom().len() == 0);
        }
        let k = choose|k: u64| m.dom().contains(k);
        assert(m.remove(k).dom() =~= m.dom().remove(k));
    }
}

/// Removing any one record takes exactly its principal off the sum.
pub proof fn lemma_sum_remove(m: Map<u64, StakingInfo>, k: u64)
    requires
        m.dom().finite(),
        m.contains_key(k),
    ensures
        sum_principal(m) == m[k].amount + sum_principal(m.remove(k)),
    decreases m.dom().len(),
{
    let c = choose|c: u64| m.dom().contains(c);
    if c != k {
        lemma_sum_remove(m.remove(c), k);
        lemma_sum_remove(m.remove(k), c);
        assert(m.remove(c).remove(k) =~= m.remove(k).remove(c));
    }
}

/// The empty ledger sums to zero.
pub proof fn lemma_sum_empty()
    ensures
        sum_principal(Map::<u64, StakingInfo>::empty()) == 0,
{
}

/// Writing a record over `k` replaces its old principal (if any) by the new one.
pub proof fn lemma_sum_insert(m: Map<u64, StakingInfo>, k: u64, v: StakingInfo)
    requires
        m.dom().finite(),
    ensures
        sum_principal(m.insert(k, v)) == v.amount + sum_principal(m.remove(k)),
        m.contains_key(k) ==> sum_principal(m) == m[k].amount + sum_principal(m.remove(k)),
        !m.contains_key(k) ==> sum_principal(m) == sum_principal(m.remove(k)),
{
    lemma_sum_remove(m.insert(k, v), k);
    assert(m.insert(k, v).remove(k) =~= m.remove(k));
    if m.contains_key(k) {
        lemma_sum_remove(m, k);
    } else {
        assert(m.remove(k) =~= m);
    }
}

/// Reward accrued by `info` at second `now`: elapsed seconds times the record's
/// rate, independent of the principal.
pub open spec fn reward_of(info: StakingInfo, now: u64) -> int {
    (now - info.start_time) * info.reward_rate
}

/// What withdrawing `info` at second `now` pays out: principal plus reward.
pub open spec fn payout_of(info: StakingInfo, now: u64) -> int {
    info.amount + reward_of(info, now)
}

/// Principal recorded for `account` in `m`, or zero where it has none.
pub open spec fn prior_amount(m: Map<u64, StakingInfo>, account: u64) -> nat {
    if m.contains_key(account) {
        m[account].amount as nat
    } else {
        0
    }
}

/// The records after `account` stakes `amount` at second `now` under `rate`.
pub open spec fn staked(m: Map<u64, StakingInfo>, account: u64, amount: u128, now: u64, rate: u128) -> Map<
    u64,
    StakingInfo,
> {
    m.insert(account, StakingInfo { amount, start_time: now, reward_rate: rate })
}

/// Every recorded stake holds a positive principal.
pub open spec fn all_positive(m: Map<u64, StakingInfo>) -> bool {
    forall|k: u64| m.contains_key(k) ==> #[trigger] m[k].amount > 0
}

/// Sum of the principals in a list of `(account, record)` pairs.
pub open spec fn seq_sum(s: Seq<(u64, StakingInfo)>) -> nat
    decreases s.len(),
{
    if s.len() == 0 {
        0
    } else {
        seq_sum(s.drop_last()) + s.last().1.amount as nat
    }
}

/// No account occurs twice in `s`.
pub open spec fn keys_unique(s: Seq<(u64, StakingInfo)>) -> bool {
    forall|i: int, j: int| 0 <= i < j < s.len() ==> #[trigger] s[i].0 != #[trigger] s[j].0
}

/// `s` lists persisted ledger state that satisfies the ledger's invariant
/// against the persisted total.
pub open spec fn records_valid(s: Seq<(u64, StakingInfo)>, total: u128) -> bool {
    &&& keys_unique(s)
    &&& forall|i: int| 0 <= i < s.len() ==> #[trigger] s[i].1.amount > 0
    &&& seq_sum(s) == total
}

/// `m` holds exactly the pairs that `s` lists.
pub open spec fn holds_records(m: Map<u64, StakingInfo>, s: Seq<(u64, StakingInfo)>) -> bool {
    &&& forall|j: int|
        0 <= j < s.len() ==> #[trigger] m.contains_key(s[j].0) && m[s[j].0] == s[j].1
    &&& forall|k: u64| #[trigger]
        m.contains_key(k) ==> exists|j: int| 0 <= j < s.len() && s[j].0 == k
}

/// The sum over a prefix never exceeds the sum over the whole list.
pub(crate) proof fn lemma_seq_sum_prefix(s: Seq<(u64, StakingInfo)>, i: int)
    requires
        0 <= i <= s.len(),
    ensures
        seq_sum(s.take(i)) <= seq_sum(s),
    decreases s.len(),
{
    if i < s.len() {
        lemma_seq_sum_prefix(s.drop_last(), i);
        assert(s.drop_last().take(i) =~= s.take(i));
    } else {
        assert(s.take(i) =~= s);
    }
}

/// A list that holds the records of `m`, each account once, sums to the sum of `m`.
pub(crate) proof fn lemma_seq_sum_matches(m: Map<u64, StakingInfo>, s: Seq<(u64, StakingInfo)>)
    requires
        m.dom().finite(),
        holds_records(m, s),
        keys_unique(s),
    ensures
        seq_sum(s) == sum_principal(m),
    decreases s.len(),
{
    if s.len() == 0 {
        assert(m =~= Map::<u64, StakingInfo>::empty());
        lemma_sum_empty();
    } else {
        let n = s.len() - 1;
        let key = s[n].0;
        let m2 = m.remove(key);
        let s2 = s.drop_last();
        assert(m.contains_key(key));
        assert forall|j: int| 0 <= j < s2.len() implies #[trigger] m2.contains_key(s2[j].0)
            && m2[s2[j].0] == s2[j].1 by {
            assert(s[j].0 != s[n].0);
            assert(m.contains_key(s[j].0));
        }
        assert forall|k: u64| #[trigger] m2.contains_key(k) implies exists|j: int|
            0 <= j < s2.len() && s2[j].0 == k by {
            assert(m.contains_key(k));
            let j = choose|j: int| 0 <= j < s.len() && #[trigger] s[j].0 == k;
            assert(s2[j].0 == k);
        }
        assert(keys_unique(s2)) by {
            assert forall|a: int, b: int| 0 <= a < b < s2.len() implies #[trigger] s2[a].0
                != #[trigger] s2[b].0 by {
                assert(s[a].0 != s[b].0);
            }
        }
        lemma_seq_sum_matches(m2, s2);
        lemma_sum_remove(m, key);
    }
}

/// Two maps that hold the records of one list are the same map.
pub(crate) proof fn lemma_holds_records_unique(
    m1: Map<u64, StakingInfo>,
    m2: Map<u64, StakingInfo>,
    s: Seq<(u64, StakingInfo)>,
)
    requires
        holds_records(m1, s),
        holds_records(m2, s),
    ensures
        m1 == m2,
{
    assert forall|k: u64| #[trigger] m1.contains_key(k) implies m2.contains_key(k) && m1[k]
        == m2[k] by {
        let j = choose|j: int| 0 <= j < s.len() && #[trigger] s[j].0 == k;
        assert(m1.contains_key(s[j].0) && m2.contains_key(s[j].0));
    }
    assert forall|k: u64| #[trigger] m2.contains_key(k) implies m1.contains_key(k) by {
        let j = choose|j: int| 0 <= j < s.len() && #[trigger] s[j].0 == k;
        assert(m1.contains_key(s[j].0));
    }
    assert(m1 =~= m2);
}

} // verus!

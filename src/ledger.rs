use std::collections::HashMap;
use vstd::prelude::*;
use vstd::std_specs::iter::IteratorSpec;

use crate::model::{
    all_positive, holds_records, keys_unique, lemma_holds_records_unique, lemma_seq_sum_matches,
    lemma_seq_sum_prefix, lemma_sum_empty, lemma_sum_insert, lemma_sum_remove, payout_of,
    prior_amount, records_valid, reward_of, seq_sum, staked, sum_principal,
};

verus! {

/// Reward units accrued per second of stake when no other rate is configured.
pub const DEFAULT_REWARD_RATE: u128 = 1;

/// One account's active stake.
#[derive(Clone, Copy, Debug, PartialEq, Eq, Structural)]
pub struct StakingInfo {
    /// Principal currently staked; positive while the record exists.
    pub amount: u128,
    /// Second at which the stake began.
    pub start_time: u64,
    /// Reward units accrued per second of stake.
    pub reward_rate: u128,
}

/// Why a ledger operation was refused. A refused operation leaves the ledger as it was.
#[derive(Clone, Copy, Debug, PartialEq, Eq, Structural)]
pub enum StakingError {
    /// The account has no active stake.
    NotFound,
    /// The amount to stake is zero.
    InvalidAmount,
    /// A reward, payout or total would not fit in a `u128`.
    Overflow,
    /// The given time precedes the stake's start.
    ClockSkew,
    /// Restored records do not satisfy the ledger's invariant.
    CorruptState,
}

/// Right after `account` stakes `amount` at `now` on a ledger whose rate is
/// `rate`, its record holds exactly that principal, that start time and that
/// rate (`DEFAULT_REWARD_RATE` on a ledger made by `new`).
pub proof fn lemma_stake_then_info(
    m: Map<u64, StakingInfo>,
    account: u64,
    amount: u128,
    now: u64,
    rate: u128,
)
    ensures
        staked(m, account, amount, now, rate).contains_key(account),
        staked(m, account, amount, now, rate)[account].amount == amount,
        staked(m, account, amount, now, rate)[account].start_time == now,
        staked(m, account, amount, now, rate)[account].reward_rate == rate,
{
}

/// A reward is never negative, and a payout that fits in a `u128` leaves room
/// for its reward: when withdrawing at `now` succeeds, computing the reward at
/// the same `now` succeeds too, and the withdrawal pays the principal plus
/// exactly that reward.
pub proof fn lemma_reward_then_unstake(info: StakingInfo, now: u64)
    requires
        now >= info.start_time,
    ensures
        reward_of(info, now) >= 0,
        payout_of(info, now) <= u128::MAX ==> reward_of(info, now) <= u128::MAX && payout_of(
            info,
            now,
        ) == info.amount + reward_of(info, now),
{
    let d: int = now - info.start_time;
    let rate: int = info.reward_rate as int;
    assert(d * rate >= 0) by (nonlinear_arith)
        requires
            d >= 0,
            rate >= 0,
    ;
}

/// Reward accrues monotonically: a later time never gives a smaller reward.
pub proof fn lemma_reward_monotonic(info: StakingInfo, t1: u64, t2: u64)
    requires
        info.start_time <= t1,
        t1 <= t2,
    ensures
        reward_of(info, t1) <= reward_of(info, t2),
{
    let d1: int = t1 - info.start_time;
    let d2: int = t2 - info.start_time;
    let rate: int = info.reward_rate as int;
    assert(d1 * rate <= d2 * rate) by (nonlinear_arith)
        requires
            0 <= d1 <= d2,
            rate >= 0,
    ;
}

/// The ledger: active stakes keyed by account, and the running total of principal.
pub struct StakingContract {
    staking_pool: HashMap<u64, StakingInfo>,
    total_staked: u128,
    reward_rate: u128,
}

impl View for StakingContract {
    type V = Map<u64, StakingInfo>;

    /// The active stakes, by account.
    closed spec fn view(&self) -> Map<u64, StakingInfo> {
        self.staking_pool@
    }
}

impl StakingContract {
    /// The running total of staked principal.
    pub closed spec fn total(&self) -> nat {
        self.total_staked as nat
    }

    /// The rate that new stakes are recorded with.
    pub closed spec fn rate(&self) -> u128 {
        self.reward_rate
    }

    /// The ledger's invariant: the running total is the sum of the recorded
    /// principals, and each recorded principal is positive.
    pub open spec fn wf(&self) -> bool {
        &&& self.total() == sum_principal(self@)
        &&& all_positive(self@)
        &&& self@.dom().finite()
    }

    /// An empty ledger whose stakes accrue `DEFAULT_REWARD_RATE` per second.
    pub fn new() -> (r: Self)
        ensures
            r.wf(),
            r@ == Map::<u64, StakingInfo>::empty(),
            r.total() == 0,
            r.rate() == DEFAULT_REWARD_RATE,
    {
        Self::with_reward_rate(DEFAULT_REWARD_RATE)
    }

    /// An empty ledger whose stakes accrue `reward_rate` per second.
    pub fn with_reward_rate(reward_rate: u128) -> (r: Self)
        ensures
            r.wf(),
            r@ == Map::<u64, StakingInfo>::empty(),
            r.total() == 0,
            r.rate() == reward_rate,
    {
        let r = StakingContract { staking_pool: HashMap::new(), total_staked: 0, reward_rate };
        proof {
            assert(r@ =~= Map::<u64, StakingInfo>::empty());
            lemma_sum_empty();
        }
        r
    }

    /// Records a stake of `amount` for `user_id` beginning at second `now`,
    /// replacing any stake the account already has; the total loses the
    /// replaced principal and gains `amount`. A zero amount is refused with
    /// `InvalidAmount`, a total past `u128` with `Overflow`.
    pub fn stake(&mut self, user_id: u64, amount: u128, now: u64) -> (r: Result<(), StakingError>)
        requires
            old(self).wf(),
        ensures
            final(self).wf(),
            final(self).rate() == old(self).rate(),
            amount == 0 ==> r == Err::<(), StakingError>(StakingError::InvalidAmount),
            amount > 0 && old(self).total() - prior_amount(old(self)@, user_id) + amount
                > u128::MAX ==> r == Err::<(), StakingError>(StakingError::Overflow),
            amount > 0 && old(self).total() - prior_amount(old(self)@, user_id) + amount
                <= u128::MAX ==> r == Ok::<(), StakingError>(()),
            r.is_ok() ==> final(self)@ == staked(old(self)@, user_id, amount, now, old(self).rate())
                && final(self).total() == old(self).total() - prior_amount(old(self)@, user_id)
                + amount,
            r.is_err() ==> final(self)@ == old(self)@ && final(self).total() == old(self).total(),
    {
        if amount == 0 {
            return Err(StakingError::InvalidAmount);
        }
        let prior: u128 = match self.staking_pool.get(&user_id) {
            Some(i) => i.amount,
            None => 0,
        };
        proof {
            lemma_sum_insert(
                self.staking_pool@,
                user_id,
                StakingInfo { amount, start_time: now, reward_rate: self.reward_rate },
            );
        }
        let base: u128 = self.total_staked - prior;
        if amount > u128::MAX - base {
            return Err(StakingError::Overflow);
        }
        let staking_info = StakingInfo { amount, start_time: now, reward_rate: self.reward_rate };
        self.staking_pool.insert(user_id, staking_info);
        self.total_staked = base + amount;
        Ok(())
    }

    /// Rebuilds a ledger from persisted `(account, record)` pairs and the
    /// persisted total. Refuses with `CorruptState` unless the accounts are
    /// distinct, every principal is positive, and the principals sum to
    /// `total_staked`.
    pub fn from_records(records: &Vec<(u64, StakingInfo)>, total_staked: u128, reward_rate: u128) -> (r:
        Result<Self, StakingError>)
        ensures
            r.is_ok() <==> records_valid(records@, total_staked),
            match r {
                Ok(c) => c.wf() && holds_records(c@, records@) && c.total() == total_staked
                    && c.rate() == reward_rate,
                Err(e) => e == StakingError::CorruptState,
            },
    {
        let mut staking_pool: HashMap<u64, StakingInfo> = HashMap::new();
        let mut sum: u128 = 0;
        let n: usize = records.len();
        let mut i: usize = 0;
        while i < n
            invariant
                n == records@.len(),
                0 <= i <= n,
                staking_pool@.dom().finite(),
                holds_records(staking_pool@, records@.take(i as int)),
                keys_unique(records@.take(i as int)),
                forall|j: int| 0 <= j < i ==> #[trigger] records@[j].1.amount > 0,
                sum == seq_sum(records@.take(i as int)),
                sum == sum_principal(staking_pool@),
                all_positive(staking_pool@),
            decreases n - i,
        {
            let (k, info) = records[i];
            let ghost s = records@;
            proof {
                assert(s.take(i + 1).drop_last() =~= s.take(i as int));
                lemma_seq_sum_prefix(s, i + 1);
            }
            if info.amount == 0 {
                return Err(StakingError::CorruptState);
            }
            if staking_pool.contains_key(&k) {
                proof {
                    let p = s.take(i as int);
                    let j = choose|j: int| 0 <= j < p.len() && #[trigger] p[j].0 == k;
                    assert(s[j].0 == s[i as int].0);
                }
                return Err(StakingError::CorruptState);
            }
            if info.amount > u128::MAX - sum {
                return Err(StakingError::CorruptState);
            }
            proof {
                lemma_sum_insert(staking_pool@, k, info);
                assert(staking_pool@.remove(k) =~= staking_pool@);
            }
            staking_pool.insert(k, info);
            sum = sum + info.amount;
            i = i + 1;
            proof {
                let t = s.take(i as int);
                let p = s.take(i - 1);
                assert forall|j: int| 0 <= j < t.len() implies #[trigger] staking_pool@.contains_key(
                    t[j].0,
                ) && staking_pool@[t[j].0] == t[j].1 by {
                    if j < i - 1 {
                        assert(p[j] == t[j]);
                        assert(p[j].0 != k);
                    }
                }
                assert forall|kk: u64| #[trigger] staking_pool@.contains_key(kk) implies exists|
                    j: int,
                | 0 <= j < t.len() && t[j].0 == kk by {
                    if kk != k {
                        let j = choose|j: int| 0 <= j < p.len() && #[trigger] p[j].0 == kk;
                        assert(t[j].0 == kk);
                    } else {
                        assert(t[i - 1].0 == kk);
                    }
                }
                assert forall|a: int, b: int| 0 <= a < b < t.len() implies #[trigger] t[a].0
                    != #[trigger] t[b].0 by {
                    if b == i - 1 {
                        assert(p[a].0 == t[a].0);
                    } else {
                        assert(p[a].0 == t[a].0 && p[b].0 == t[b].0);
                    }
                }
            }
        }
        proof {
            assert(records@.take(n as int) =~= records@);
        }
        if sum != total_staked {
            return Err(StakingError::CorruptState);
        }
        Ok(StakingContract { staking_pool, total_staked, reward_rate })
    }

    /// The active stakes as `(account, record)` pairs, each account once, for
    /// persisting beside `get_total_staked`.
    pub fn records(&self) -> (r: Vec<(u64, StakingInfo)>)
        ensures
            holds_records(self@, r@),
            keys_unique(r@),
    {
        let mut out: Vec<(u64, StakingInfo)> = Vec::new();
        let ghost pairs = self.staking_pool.iter().remaining();
        for (k, v) in it: self.staking_pool.iter()
            invariant
                it.seq() == pairs,
                pairs.no_duplicates(),
                out@.len() == it.index(),
                forall|j: int| 0 <= j < out@.len() ==> #[trigger] out@[j] == (*it.seq()[j].0, *it.seq()[j].1),
        {
            out.push((*k, *v));
        }
        proof {
            let m = self.staking_pool@;
            let v = pairs;
            assert(out@.len() == v.len());
            assert forall|j: int| 0 <= j < out@.len() implies #[trigger] m.contains_key(out@[j].0)
                && m[out@[j].0] == out@[j].1 by {
                assert(m.contains_key(*v[j].0));
            }
            assert forall|k: u64| #[trigger] m.contains_key(k) implies exists|j: int|
                0 <= j < out@.len() && out@[j].0 == k by {
                assert(v.contains((&k, &m[k])));
                let j = choose|j: int| 0 <= j < v.len() && v[j] == (&k, &m[k]);
                assert(out@[j].0 == k);
            }
            assert forall|a: int, b: int| 0 <= a < b < out@.len() implies #[trigger] out@[a].0
                != #[trigger] out@[b].0 by {
                if out@[a].0 == out@[b].0 {
                    assert(m.contains_key(*v[a].0) && m.contains_key(*v[b].0));
                    assert(v[a] == v[b]);
                }
            }
        }
        out
    }

    /// Withdraws `user_id`'s stake at second `now`: removes the record, takes its
    /// principal off the total, and returns principal plus reward for the
    /// caller to transfer. A `now` before the stake's start is refused with
    /// `ClockSkew`, a payout past `u128` with `Overflow`.
    pub fn unstake(&mut self, user_id: u64, now: u64) -> (r: Result<u128, StakingError>)
        requires
            old(self).wf(),
        ensures
            final(self).wf(),
            final(self).rate() == old(self).rate(),
            !old(self)@.contains_key(user_id) ==> r == Err::<u128, StakingError>(StakingError::NotFound),
            old(self)@.contains_key(user_id) && now < old(self)@[user_id].start_time ==> r == Err::<
                u128,
                StakingError,
            >(StakingError::ClockSkew),
            old(self)@.contains_key(user_id) && now >= old(self)@[user_id].start_time && payout_of(
                old(self)@[user_id],
                now,
            ) > u128::MAX ==> r == Err::<u128, StakingError>(StakingError::Overflow),
            old(self)@.contains_key(user_id) && now >= old(self)@[user_id].start_time && payout_of(
                old(self)@[user_id],
                now,
            ) <= u128::MAX ==> r == Ok::<u128, StakingError>(
                payout_of(old(self)@[user_id], now) as u128,
            ),
            r.is_ok() ==> final(self)@ == old(self)@.remove(user_id) && final(self).total()
                == old(self).total() - old(self)@[user_id].amount,
            r.is_err() ==> final(self)@ == old(self)@ && final(self).total() == old(self).total(),
    {
        let info = match self.staking_pool.get(&user_id) {
            Some(i) => *i,
            None => {
                return Err(StakingError::NotFound);
            },
        };
        let total_amount = match payout(&info, now) {
            Ok(t) => t,
            Err(e) => {
                return Err(e);
            },
        };
        proof {
            lemma_sum_remove(self.staking_pool@, user_id);
        }
        self.staking_pool.remove(&user_id);
        self.total_staked = self.total_staked - info.amount;
        Ok(total_amount)
    }
}

impl StakingContract {
    /// The reward `user_id`'s stake has accrued by second `now`, as `unstake`
    /// at `now` would compute it. The ledger is not changed. Where `unstake`
    /// at `now` would be refused, this is refused with the same error: in
    /// particular with `Overflow` when principal plus reward would not fit.
    pub fn calculate_rewards(&self, user_id: u64, now: u64) -> (r: Result<u128, StakingError>)
        requires
            self.wf(),
        ensures
            !self@.contains_key(user_id) ==> r == Err::<u128, StakingError>(StakingError::NotFound),
            self@.contains_key(user_id) && now < self@[user_id].start_time ==> r == Err::<
                u128,
                StakingError,
            >(StakingError::ClockSkew),
            self@.contains_key(user_id) && now >= self@[user_id].start_time && payout_of(
                self@[user_id],
                now,
            ) > u128::MAX ==> r == Err::<u128, StakingError>(StakingError::Overflow),
            self@.contains_key(user_id) && now >= self@[user_id].start_time && payout_of(
                self@[user_id],
                now,
            ) <= u128::MAX ==> r == Ok::<u128, StakingError>(reward_of(self@[user_id], now) as u128),
    {
        match self.staking_pool.get(&user_id) {
            Some(info) => match payout(info, now) {
                Ok(_) => reward(info, now),
                Err(e) => Err(e),
            },
            None => Err(StakingError::NotFound),
        }
    }

    /// The active stake of `user_id`, if it has one.
    pub fn get_staking_info(&self, user_id: u64) -> (r: Option<&StakingInfo>)
        ensures
            match r {
                Some(info) => self@.contains_key(user_id) && *info == self@[user_id],
                None => !self@.contains_key(user_id),
            },
    {
        self.staking_pool.get(&user_id)
    }

    /// The running total of staked principal.
    pub fn get_total_staked(&self) -> (r: u128)
        ensures
            r == self.total(),
    {
        self.total_staked
    }

    /// The rate that new stakes are recorded with.
    pub fn get_reward_rate(&self) -> (r: u128)
        ensures
            r == self.rate(),
    {
        self.reward_rate
    }
}

/// Persisting a ledger and restoring it gives back the same ledger: a list that
/// holds the ledger's records, each account once, passes the check that
/// `from_records` makes against the ledger's total, and whatever map holds that
/// list's records is the ledger's own.
pub proof fn lemma_records_round_trip(
    c: &StakingContract,
    s: Seq<(u64, StakingInfo)>,
    restored: Map<u64, StakingInfo>,
)
    requires
        c.wf(),
        holds_records(c@, s),
        keys_unique(s),
        holds_records(restored, s),
    ensures
        c.total() <= u128::MAX,
        records_valid(s, c.total() as u128),
        restored == c@,
{
    lemma_seq_sum_matches(c@, s);
    assert forall|i: int| 0 <= i < s.len() implies #[trigger] s[i].1.amount > 0 by {
        assert(c@.contains_key(s[i].0));
    }
    lemma_holds_records_unique(restored, c@, s);
}

impl Default for StakingContract {
    /// The same ledger as `StakingContract::new`.
    fn default() -> (r: Self)
        ensures
            r.wf(),
            r@ == Map::<u64, StakingInfo>::empty(),
            r.total() == 0,
            r.rate() == DEFAULT_REWARD_RATE,
    {
        Self::new()
    }
}

/// Reward accrued by `info` at second `now`.
fn reward(info: &StakingInfo, now: u64) -> (r: Result<u128, StakingError>)
    ensures
        now < info.start_time ==> r == Err::<u128, StakingError>(StakingError::ClockSkew),
        now >= info.start_time && reward_of(*info, now) > u128::MAX ==> r == Err::<
            u128,
            StakingError,
        >(StakingError::Overflow),
        now >= info.start_time && reward_of(*info, now) <= u128::MAX ==> r == Ok::<
            u128,
            StakingError,
        >(reward_of(*info, now) as u128),
{
    if now < info.start_time {
        return Err(StakingError::ClockSkew);
    }
    let duration: u128 = (now - info.start_time) as u128;
    match duration.checked_mul(info.reward_rate) {
        Some(r) => Ok(r),
        None => Err(StakingError::Overflow),
    }
}

/// Principal plus reward of `info` at second `now`.
fn payout(info: &StakingInfo, now: u64) -> (r: Result<u128, StakingError>)
    ensures
        now < info.start_time ==> r == Err::<u128, StakingError>(StakingError::ClockSkew),
        now >= info.start_time && payout_of(*info, now) > u128::MAX ==> r == Err::<
            u128,
            StakingError,
        >(StakingError::Overflow),
        now >= info.start_time && payout_of(*info, now) <= u128::MAX ==> r == Ok::<
            u128,
            StakingError,
        >(payout_of(*info, now) as u128),
{
    let rewards = match reward(info, now) {
        Ok(x) => x,
        Err(e) => {
            return Err(e);
        },
    };
    match info.amount.checked_add(rewards) {
        Some(t) => Ok(t),
        None => Err(StakingError::Overflow),
    }
}

} // verus!

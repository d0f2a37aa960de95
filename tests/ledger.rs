use stake_ledger::ledger::{StakingContract, StakingError, StakingInfo, DEFAULT_REWARD_RATE};

#[test]
fn test_staking() {
    let account: u64 = 1;
    let mut contract = StakingContract::new();

    assert!(contract.stake(account, 1000, 1_700_000_000).is_ok());
    assert_eq!(contract.get_total_staked(), 1000);

    let info = contract.get_staking_info(account).unwrap();
    assert_eq!(info.amount, 1000);

    let rewards = contract.calculate_rewards(account, 1_700_000_000).unwrap();
    assert!(rewards >= 0);
}

#[test]
fn test_staking_contract() {
    let mut contract = StakingContract::new();
    let user_id: u64 = 1;
    let stake_amount: u128 = 1000;
    let now: u64 = 1_700_000_000;

    assert!(contract.stake(user_id, stake_amount, now).is_ok());
    assert_eq!(contract.get_total_staked(), stake_amount);

    let info = contract.get_staking_info(user_id).unwrap();
    assert_eq!(info.amount, stake_amount);

    let rewards = contract.calculate_rewards(user_id, now).unwrap();
    assert!(rewards >= 0);

    let total_amount = contract.unstake(user_id, now).unwrap();
    assert!(total_amount >= stake_amount);
    assert_eq!(contract.get_total_staked(), 0);
}

#[test]
fn stake_reward_unstake_scenario() {
    let mut c = StakingContract::new();
    assert_eq!(c.get_reward_rate(), 1);
    c.stake(7, 1000, 0).unwrap();
    assert_eq!(c.calculate_rewards(7, 100), Ok(100));
    assert_eq!(c.unstake(7, 100), Ok(1100));
    assert!(c.get_staking_info(7).is_none());
    assert_eq!(c.get_total_staked(), 0);
}

#[test]
fn two_accounts_total() {
    let mut c = StakingContract::new();
    c.stake(1, 500, 10).unwrap();
    c.stake(2, 300, 10).unwrap();
    assert_eq!(c.get_total_staked(), 800);
    assert_eq!(c.unstake(1, 20), Ok(510));
    assert_eq!(c.get_total_staked(), 300);
}

#[test]
fn stake_then_info_has_amount_and_time() {
    let mut c = StakingContract::new();
    c.stake(42, 250, 1234).unwrap();
    let info = *c.get_staking_info(42).unwrap();
    assert_eq!(
        info,
        StakingInfo { amount: 250, start_time: 1234, reward_rate: DEFAULT_REWARD_RATE }
    );
}

#[test]
fn unstake_missing_account_is_not_found() {
    let mut c = StakingContract::new();
    c.stake(1, 500, 0).unwrap();
    assert_eq!(c.unstake(2, 10), Err(StakingError::NotFound));
    assert_eq!(c.get_total_staked(), 500);
    assert_eq!(c.calculate_rewards(2, 10), Err(StakingError::NotFound));
}

#[test]
fn unstake_twice_second_is_not_found() {
    let mut c = StakingContract::new();
    c.stake(1, 500, 0).unwrap();
    assert_eq!(c.unstake(1, 3), Ok(503));
    assert_eq!(c.unstake(1, 3), Err(StakingError::NotFound));
    assert_eq!(c.get_total_staked(), 0);
}

#[test]
fn reward_then_unstake_agree() {
    let mut c = StakingContract::new();
    c.stake(5, 900, 50).unwrap();
    let reward = c.calculate_rewards(5, 80).unwrap();
    assert_eq!(reward, 30);
    assert_eq!(c.unstake(5, 80), Ok(900 + reward));
}

#[test]
fn reward_grows_with_time() {
    let mut c = StakingContract::new();
    c.stake(5, 900, 50).unwrap();
    let r1 = c.calculate_rewards(5, 60).unwrap();
    let r2 = c.calculate_rewards(5, 61).unwrap();
    let r3 = c.calculate_rewards(5, 1000).unwrap();
    assert!(r1 <= r2 && r2 <= r3);
    assert_eq!((r1, r2, r3), (10, 11, 950));
}

#[test]
fn zero_amount_is_invalid() {
    let mut c = StakingContract::new();
    assert_eq!(c.stake(1, 0, 5), Err(StakingError::InvalidAmount));
    assert_eq!(c.get_total_staked(), 0);
    assert!(c.get_staking_info(1).is_none());
}

#[test]
fn restake_replaces_record_and_total() {
    let mut c = StakingContract::new();
    c.stake(1, 500, 0).unwrap();
    c.stake(2, 100, 0).unwrap();
    c.stake(1, 200, 40).unwrap();
    assert_eq!(c.get_total_staked(), 300);
    let info = c.get_staking_info(1).unwrap();
    assert_eq!((info.amount, info.start_time), (200, 40));
}

#[test]
fn stake_total_overflow_is_refused() {
    let mut c = StakingContract::new();
    c.stake(1, u128::MAX - 10, 0).unwrap();
    assert_eq!(c.stake(2, 11, 0), Err(StakingError::Overflow));
    assert_eq!(c.get_total_staked(), u128::MAX - 10);
    assert!(c.get_staking_info(2).is_none());
    // Replacing the large stake frees its principal first.
    assert_eq!(c.stake(1, u128::MAX, 0), Ok(()));
    assert_eq!(c.get_total_staked(), u128::MAX);
}

#[test]
fn near_max_stake_far_future_overflows() {
    let mut c = StakingContract::new();
    c.stake(1, u128::MAX - 5, 0).unwrap();
    assert_eq!(c.calculate_rewards(1, u64::MAX), Err(StakingError::Overflow));
    assert_eq!(c.unstake(1, u64::MAX), Err(StakingError::Overflow));
    assert_eq!(c.get_total_staked(), u128::MAX - 5);
    assert!(c.get_staking_info(1).is_some());
    // Principal plus reward still fits at an earlier time.
    assert_eq!(c.calculate_rewards(1, 5), Ok(5));
    assert_eq!(c.unstake(1, 5), Ok(u128::MAX));

    let mut d = StakingContract::with_reward_rate(u128::MAX / 2);
    d.stake(1, 10, 0).unwrap();
    assert_eq!(d.calculate_rewards(1, 3), Err(StakingError::Overflow));
    assert_eq!(d.unstake(1, 3), Err(StakingError::Overflow));
    assert_eq!(d.calculate_rewards(1, 1), Ok(u128::MAX / 2));
}

#[test]
fn large_amounts_beyond_u64() {
    let mut c = StakingContract::new();
    let big: u128 = 1_000_000_000_000_000_000_000_000;
    c.stake(1, big, 0).unwrap();
    c.stake(2, big, 0).unwrap();
    assert_eq!(c.get_total_staked(), 2 * big);
    assert_eq!(c.unstake(1, u64::MAX), Ok(big + u64::MAX as u128));
}

#[test]
fn time_before_start_is_clock_skew() {
    let mut c = StakingContract::new();
    c.stake(1, 10, 100).unwrap();
    assert_eq!(c.calculate_rewards(1, 99), Err(StakingError::ClockSkew));
    assert_eq!(c.unstake(1, 99), Err(StakingError::ClockSkew));
    assert_eq!(c.get_total_staked(), 10);
    assert_eq!(c.unstake(1, 100), Ok(10));
}

#[test]
fn custom_rate_scales_reward() {
    let mut c = StakingContract::with_reward_rate(3);
    c.stake(9, 1000, 10).unwrap();
    assert_eq!(c.get_staking_info(9).unwrap().reward_rate, 3);
    assert_eq!(c.calculate_rewards(9, 20), Ok(30));
    assert_eq!(c.unstake(9, 20), Ok(1030));
}

#[test]
fn default_is_empty_ledger() {
    let c = StakingContract::default();
    assert_eq!(c.get_total_staked(), 0);
    assert_eq!(c.get_reward_rate(), DEFAULT_REWARD_RATE);
    assert!(c.records().is_empty());
}

fn info(amount: u128, start_time: u64) -> StakingInfo {
    StakingInfo { amount, start_time, reward_rate: 1 }
}

#[test]
fn records_round_trip() {
    let mut c = StakingContract::new();
    c.stake(1, 500, 3).unwrap();
    c.stake(2, 300, 4).unwrap();
    c.stake(3, 200, 5).unwrap();
    let mut recs = c.records();
    recs.sort_by_key(|r| r.0);
    assert_eq!(recs, vec![(1, info(500, 3)), (2, info(300, 4)), (3, info(200, 5))]);

    let restored = StakingContract::from_records(&recs, c.get_total_staked(), 1).unwrap();
    assert_eq!(restored.get_total_staked(), 1000);
    assert_eq!(restored.get_staking_info(2), Some(&info(300, 4)));
    let mut again = restored.records();
    again.sort_by_key(|r| r.0);
    assert_eq!(again, recs);
}

#[test]
fn restore_rejects_wrong_total() {
    let recs = vec![(1, info(500, 0)), (2, info(300, 0))];
    assert!(StakingContract::from_records(&recs, 800, 1).is_ok());
    assert_eq!(
        StakingContract::from_records(&recs, 799, 1).err(),
        Some(StakingError::CorruptState)
    );
}

#[test]
fn restore_rejects_duplicate_account() {
    let recs = vec![(1, info(500, 0)), (1, info(300, 0))];
    assert_eq!(
        StakingContract::from_records(&recs, 800, 1).err(),
        Some(StakingError::CorruptState)
    );
}

#[test]
fn restore_rejects_zero_principal() {
    let recs = vec![(1, info(500, 0)), (2, info(0, 0))];
    assert_eq!(
        StakingContract::from_records(&recs, 500, 1).err(),
        Some(StakingError::CorruptState)
    );
}

#[test]
fn restore_rejects_sum_past_u128() {
    let recs = vec![(1, info(u128::MAX, 0)), (2, info(1, 0))];
    assert_eq!(
        StakingContract::from_records(&recs, 0, 1).err(),
        Some(StakingError::CorruptState)
    );
    let empty: Vec<(u64, StakingInfo)> = Vec::new();
    assert_eq!(StakingContract::from_records(&empty, 0, 1).unwrap().get_total_staked(), 0);
}

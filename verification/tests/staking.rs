use metaverse_pallets::balances::Balances;
use metaverse_pallets::pallet::Pallet;
use metaverse_pallets::types::{
    AccountId, BlockNumber, Config, CountryId, DispatchError, Error, Event, Origin,
};

const ALICE: AccountId = 3;
const BOB: AccountId = 9;
const COUNTRY: CountryId = 0;
const COUNTRY_ID_NOT_EXIST: CountryId = 2;

fn config() -> Config {
    Config { balance_lock_period: 100, era_length: 200, default_reward_multiplier: 10 }
}

/// Genesis of the test chain: ALICE holds 100000, BOB 2000, at block 1.
fn build() -> Pallet {
    let mut balances = Balances::new();
    balances.endow(ALICE, 100000);
    balances.endow(BOB, 2000);
    let mut pallet = Pallet::new(config(), balances);
    pallet.set_block_number(1);
    pallet
}

fn run_to_block(pallet: &mut Pallet, n: BlockNumber) {
    while pallet.block_number() < n {
        let now = pallet.block_number();
        pallet.on_finalize(now);
        pallet.set_block_number(now + 1);
    }
}

/// Everything the tests can observe of the accounts and countries they use.
fn snapshot(p: &Pallet) -> Vec<u128> {
    let mut v: Vec<u128> = vec![p.events().len() as u128, p.current_era() as u128, p.block_number() as u128];
    for who in [ALICE, BOB] {
        v.push(p.balances().free_balance(who) as u128);
        v.push(p.balances().reserved_balance(who) as u128);
        for country in [COUNTRY, 1, COUNTRY_ID_NOT_EXIST] {
            v.push(p.staked_balance(who, country) as u128);
            v.push(p.account_rewards(who, country) as u128);
        }
        for at in [0, 1, 2, 101, 102, 201, 221] {
            v.push(p.unstake_request(at, who) as u128);
        }
    }
    v
}

fn last_event(pallet: &Pallet) -> Event {
    pallet.last_event().expect("Event expected")
}

#[test]
fn staking_should_work() {
    let mut p = build();
    let origin = Origin::Signed(ALICE);
    p.register_country(COUNTRY);
    assert_eq!(p.stake(origin, COUNTRY, 100), Ok(()));
    assert_eq!(p.staked_balance(ALICE, COUNTRY), 100);
    assert_eq!(last_event(&p), Event::BalanceStaked(ALICE, COUNTRY, 100));
    assert_eq!(p.stake(origin, COUNTRY, 100), Ok(()));
    assert_eq!(p.staked_balance(ALICE, COUNTRY), 200);
    assert_eq!(last_event(&p), Event::BalanceStaked(ALICE, COUNTRY, 100));
}

#[test]
fn staking_insufficient_balance_should_not_work() {
    let mut p = build();
    let origin = Origin::Signed(BOB);
    p.register_country(COUNTRY);
    let before = snapshot(&p);
    assert_eq!(
        p.stake(origin, COUNTRY, 2001),
        Err(DispatchError::Module(Error::InsufficientFreeBalance))
    );
    assert_eq!(snapshot(&p), before);
}

#[test]
fn staking_on_non_existing_country_should_not_work() {
    let mut p = build();
    let origin = Origin::Signed(BOB);
    let before = snapshot(&p);
    assert_eq!(
        p.stake(origin, COUNTRY_ID_NOT_EXIST, 100),
        Err(DispatchError::Module(Error::CountryDoesNotExist))
    );
    assert_eq!(snapshot(&p), before);
}

#[test]
fn unstaking_should_work() {
    let mut p = build();
    let origin = Origin::Signed(ALICE);
    p.register_country(COUNTRY);
    assert_eq!(p.stake(origin, COUNTRY, 100), Ok(()));
    assert_eq!(p.unstake(origin, COUNTRY, 50), Ok(()));
    assert_eq!(p.staked_balance(ALICE, COUNTRY), 50);
    assert_eq!(p.balances().reserved_balance(ALICE), 100);
    assert_eq!(p.unstake_request(101, ALICE), 50);
    assert_eq!(last_event(&p), Event::BalanceUnstaked(ALICE, COUNTRY, 50));
    run_to_block(&mut p, 102);
    assert_eq!(p.balances().reserved_balance(ALICE), 50);
    assert_eq!(last_event(&p), Event::UnstakeRequestCompleted(ALICE, 50));
}

#[test]
fn unstaking_insufficient_balance_should_not_work() {
    let mut p = build();
    let origin = Origin::Signed(ALICE);
    p.register_country(COUNTRY);
    assert_eq!(p.stake(origin, COUNTRY, 100), Ok(()));
    let before = snapshot(&p);
    assert_eq!(
        p.unstake(origin, COUNTRY, 105),
        Err(DispatchError::Module(Error::InsufficientStakedBalance))
    );
    assert_eq!(snapshot(&p), before);
}

#[test]
fn reinvest_rewards_should_work() {
    let mut p = build();
    let origin = Origin::Signed(ALICE);
    p.register_country(COUNTRY);
    assert_eq!(p.stake(origin, COUNTRY, 100), Ok(()));
    assert_eq!(p.staked_balance(ALICE, COUNTRY), 100);
    assert_eq!(p.account_rewards(ALICE, COUNTRY), 0);
    p.insert_reward(ALICE, COUNTRY, 10);
    assert_eq!(p.account_rewards(ALICE, COUNTRY), 10);
    assert_eq!(p.reinvest(origin, COUNTRY), Ok(()));
    assert_eq!(p.account_rewards(ALICE, COUNTRY), 0);
    assert_eq!(p.balances().free_balance(ALICE), 99900);
    assert_eq!(p.staked_balance(ALICE, COUNTRY), 110);
    assert_eq!(last_event(&p), Event::BalanceReinvested(ALICE, COUNTRY, 10));
}

#[test]
fn reinvesting_no_rewards_should_not_work() {
    let mut p = build();
    let origin = Origin::Signed(ALICE);
    p.register_country(COUNTRY);
    assert_eq!(p.stake(origin, COUNTRY, 100), Ok(()));
    assert_eq!(p.staked_balance(ALICE, COUNTRY), 100);
    run_to_block(&mut p, 121);
    let before = snapshot(&p);
    assert_eq!(
        p.reinvest(origin, COUNTRY),
        Err(DispatchError::Module(Error::NoRewardsAvailable))
    );
    assert_eq!(snapshot(&p), before);
}

#[test]
fn claim_rewards_should_work() {
    let mut p = build();
    let origin = Origin::Signed(ALICE);
    p.register_country(COUNTRY);
    assert_eq!(p.stake(origin, COUNTRY, 100), Ok(()));
    assert_eq!(p.staked_balance(ALICE, COUNTRY), 100);
    assert_eq!(p.account_rewards(ALICE, COUNTRY), 0);
    p.insert_reward(ALICE, COUNTRY, 20);
    assert_eq!(p.account_rewards(ALICE, COUNTRY), 20);
    assert_eq!(p.claim(origin, COUNTRY), Ok(()));
    assert_eq!(p.account_rewards(ALICE, COUNTRY), 0);
    assert_eq!(p.balances().free_balance(ALICE), 99920);
    assert_eq!(p.staked_balance(ALICE, COUNTRY), 100);
    assert_eq!(last_event(&p), Event::StakingRewardClaimed(ALICE, COUNTRY, 20));
}

#[test]
fn claiming_no_rewards_should_not_work() {
    let mut p = build();
    let origin = Origin::Signed(ALICE);
    p.register_country(COUNTRY);
    assert_eq!(p.stake(origin, COUNTRY, 100), Ok(()));
    assert_eq!(p.staked_balance(ALICE, COUNTRY), 100);
    run_to_block(&mut p, 121);
    let before = snapshot(&p);
    assert_eq!(
        p.claim(origin, COUNTRY),
        Err(DispatchError::Module(Error::NoRewardsAvailable))
    );
    assert_eq!(snapshot(&p), before);
}

#[test]
fn era_should_update() {
    let mut p = build();
    run_to_block(&mut p, 105);
    assert_eq!(p.current_era(), 1);
    run_to_block(&mut p, 205);
    assert_eq!(p.current_era(), 2);
    run_to_block(&mut p, 405);
    assert_eq!(p.current_era(), 3);
}

#[test]
fn era_payout_should_work() {
    let mut p = build();
    let origin = Origin::Signed(ALICE);
    p.register_country(COUNTRY);
    assert_eq!(p.stake(origin, COUNTRY, 100), Ok(()));
    assert_eq!(p.staked_balance(ALICE, COUNTRY), 100);
    run_to_block(&mut p, 105);
    assert_eq!(p.account_rewards(ALICE, COUNTRY), 0);
    run_to_block(&mut p, 205);
    assert_eq!(p.account_rewards(ALICE, COUNTRY), 10);
    assert_eq!(last_event(&p), Event::EraPayout(1));
    run_to_block(&mut p, 408);
    assert_eq!(p.account_rewards(ALICE, COUNTRY), 20);
    assert_eq!(last_event(&p), Event::EraPayout(2));
}

// Further cases.

#[test]
fn unsigned_calls_are_refused() {
    let mut p = build();
    p.register_country(COUNTRY);
    assert_eq!(p.stake(Origin::Root, COUNTRY, 1), Err(DispatchError::BadOrigin));
    assert_eq!(p.unstake(Origin::Unsigned, COUNTRY, 0), Err(DispatchError::BadOrigin));
    assert_eq!(p.claim(Origin::Root, COUNTRY), Err(DispatchError::BadOrigin));
    assert_eq!(p.reinvest(Origin::Unsigned, COUNTRY), Err(DispatchError::BadOrigin));
    assert!(p.last_event().is_none());
}

#[test]
fn stake_reserves_funds() {
    let mut p = build();
    p.register_country(COUNTRY);
    assert_eq!(p.stake(Origin::Signed(BOB), COUNTRY, 2000), Ok(()));
    assert_eq!(p.balances().free_balance(BOB), 0);
    assert_eq!(p.balances().reserved_balance(BOB), 2000);
}

#[test]
fn stake_then_unstake_restores_stake() {
    let mut p = build();
    p.register_country(COUNTRY);
    assert_eq!(p.stake(Origin::Signed(ALICE), COUNTRY, 30), Ok(()));
    assert_eq!(p.stake(Origin::Signed(ALICE), COUNTRY, 70), Ok(()));
    assert_eq!(p.unstake(Origin::Signed(ALICE), COUNTRY, 70), Ok(()));
    assert_eq!(p.staked_balance(ALICE, COUNTRY), 30);
    assert_eq!(p.balances().reserved_balance(ALICE), 100);
    assert_eq!(p.balances().free_balance(ALICE), 99900);
    assert_eq!(p.unstake_request(101, ALICE), 70);
}

#[test]
fn unstake_everything_clears_stake() {
    let mut p = build();
    p.register_country(COUNTRY);
    assert_eq!(p.stake(Origin::Signed(ALICE), COUNTRY, 100), Ok(()));
    assert_eq!(p.unstake(Origin::Signed(ALICE), COUNTRY, 100), Ok(()));
    assert_eq!(p.staked_balance(ALICE, COUNTRY), 0);
    run_to_block(&mut p, 102);
    assert_eq!(p.balances().reserved_balance(ALICE), 0);
    assert_eq!(p.balances().free_balance(ALICE), 100000);
    assert_eq!(p.unstake_request(101, ALICE), 0);
}

#[test]
fn unstake_in_same_block_replaces_request() {
    let mut p = build();
    p.register_country(COUNTRY);
    assert_eq!(p.stake(Origin::Signed(ALICE), COUNTRY, 100), Ok(()));
    assert_eq!(p.unstake(Origin::Signed(ALICE), COUNTRY, 40), Ok(()));
    assert_eq!(p.unstake(Origin::Signed(ALICE), COUNTRY, 10), Ok(()));
    assert_eq!(p.unstake_request(101, ALICE), 10);
    run_to_block(&mut p, 102);
    assert_eq!(p.balances().reserved_balance(ALICE), 90);
}

#[test]
fn era_end_pays_every_stake() {
    let mut p = build();
    p.register_country(COUNTRY);
    p.register_country(1);
    assert_eq!(p.stake(Origin::Signed(ALICE), COUNTRY, 1000), Ok(()));
    assert_eq!(p.stake(Origin::Signed(BOB), 1, 55), Ok(()));
    p.insert_reward(BOB, COUNTRY, 7);
    run_to_block(&mut p, 201);
    assert_eq!(p.account_rewards(ALICE, COUNTRY), 100);
    assert_eq!(p.account_rewards(BOB, 1), 5);
    assert_eq!(p.account_rewards(BOB, COUNTRY), 7);
    assert!(p.era_info(400, 2));
    assert!(p.era_info(200, 1));
    assert_eq!(p.current_era(), 2);
}

#[test]
fn claim_for_account_without_funds_loses_reward() {
    // The deposit is refused for an account that holds nothing, and the
    // reward is cleared all the same.
    let mut p = build();
    let carol: AccountId = 77;
    p.insert_reward(carol, COUNTRY, 5);
    assert_eq!(p.claim(Origin::Signed(carol), COUNTRY), Ok(()));
    assert_eq!(p.account_rewards(carol, COUNTRY), 0);
    assert_eq!(p.balances().free_balance(carol), 0);
}

#[test]
fn balances_ledger_operations() {
    let mut b = Balances::new();
    b.endow(1, 50);
    assert!(b.reserve(1, 20));
    assert!(!b.reserve(1, 31));
    assert_eq!(b.free_balance(1), 30);
    assert_eq!(b.reserved_balance(1), 20);
    assert_eq!(b.unreserve(1, 25), 5);
    assert_eq!(b.free_balance(1), 50);
    assert_eq!(b.reserved_balance(1), 0);
    assert!(b.deposit_into_existing(1, 7));
    assert_eq!(b.free_balance(1), 57);
    assert!(!b.deposit_into_existing(2, 7));
    assert_eq!(b.unreserve(2, 9), 9);
    assert!(b.reserve(2, 0));
}

/// Storage key of an account under the `Twox64Concat` hasher.
fn storage_key(who: AccountId) -> Vec<u8> {
    let encoded = who.to_le_bytes();
    let mut key = sp_crypto_hashing::twox_64(&encoded).to_vec();
    key.extend_from_slice(&encoded);
    key
}

#[test]
fn released_requests_are_reported_in_storage_order() {
    let mut p = build();
    p.register_country(COUNTRY);
    let accounts: [AccountId; 4] = [ALICE, BOB, 5, 1_000_000];
    let mut balances = Balances::new();
    for who in accounts {
        balances.endow(who, 1000);
    }
    let mut p2 = Pallet::new(config(), balances);
    p2.set_block_number(1);
    p2.register_country(COUNTRY);
    for who in accounts {
        assert_eq!(p2.stake(Origin::Signed(who), COUNTRY, 10), Ok(()));
        assert_eq!(p2.unstake(Origin::Signed(who), COUNTRY, 10), Ok(()));
    }
    let before = p2.events().len();
    run_to_block(&mut p2, 102);
    let completed: Vec<AccountId> = p2.events()[before..]
        .iter()
        .filter_map(|e| match e {
            Event::UnstakeRequestCompleted(who, funds) => {
                assert_eq!(*funds, 10);
                Some(*who)
            }
            _ => None,
        })
        .collect();
    let mut expected = accounts.to_vec();
    expected.sort_by(|a, b| storage_key(*a).cmp(&storage_key(*b)));
    assert_eq!(completed, expected);
    for who in accounts {
        assert_eq!(p2.balances().free_balance(who), 1000);
        assert_eq!(p2.balances().reserved_balance(who), 0);
    }
    assert_eq!(p.last_event(), None);
}

#[test]
fn eras_from_genesis_follow_era_length() {
    let mut p = build();
    let mut payouts: Vec<(u64, u32)> = Vec::new();
    while p.block_number() <= 1000 {
        let now = p.block_number();
        let count = p.events().len();
        p.on_finalize(now);
        for e in &p.events()[count..] {
            if let Event::EraPayout(era) = e {
                payouts.push((now, *era));
            }
        }
        p.set_block_number(now + 1);
    }
    // 1000 blocks finalized: era 1 + 1000 / 200.
    assert_eq!(p.current_era(), 6);
    assert!(p.era_info(1200, 6));
    assert_eq!(payouts, vec![(200, 1), (400, 2), (600, 3), (800, 4), (1000, 5)]);
}

#[test]
fn stake_unstake_round_trip_restores_funds() {
    let mut p = build();
    p.register_country(COUNTRY);
    assert_eq!(p.stake(Origin::Signed(ALICE), COUNTRY, 40), Ok(()));
    run_to_block(&mut p, 5);
    assert_eq!(p.stake(Origin::Signed(ALICE), COUNTRY, 300), Ok(()));
    assert_eq!(p.unstake(Origin::Signed(ALICE), COUNTRY, 300), Ok(()));
    run_to_block(&mut p, 105);
    assert_eq!(p.balances().reserved_balance(ALICE), 340);
    assert_eq!(p.unstake_request(105, ALICE), 300);
    run_to_block(&mut p, 106);
    assert_eq!(p.staked_balance(ALICE, COUNTRY), 40);
    assert_eq!(p.balances().reserved_balance(ALICE), 40);
    assert_eq!(p.balances().free_balance(ALICE), 99960);
}

#[test]
fn stake_twice_equals_stake_of_sum() {
    let mut a = build();
    a.register_country(COUNTRY);
    assert_eq!(a.stake(Origin::Signed(BOB), COUNTRY, 700), Ok(()));
    assert_eq!(a.stake(Origin::Signed(BOB), COUNTRY, 800), Ok(()));
    let mut b = build();
    b.register_country(COUNTRY);
    assert_eq!(b.stake(Origin::Signed(BOB), COUNTRY, 1500), Ok(()));
    assert_eq!(a.staked_balance(BOB, COUNTRY), b.staked_balance(BOB, COUNTRY));
    assert_eq!(a.balances().free_balance(BOB), b.balances().free_balance(BOB));
    assert_eq!(a.balances().reserved_balance(BOB), b.balances().reserved_balance(BOB));
}

#[test]
fn call_weight_is_declared_weight() {
    let w = Pallet::call_weight();
    assert_eq!(w.ref_time, 10_000);
    assert_eq!(w.proof_size, 0);
}

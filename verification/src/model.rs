use vstd::prelude::*;

use crate::balances::{account_of, deposit_outcome, reserve_outcome, unreserve_outcome, AccountData};
use crate::hashing::{account_key, key_less};
use crate::storage::without_prefix;
use crate::types::{
    signer_of, AccountId, Balance, BlockNumber, Config, CountryId, DispatchError, EraIndex, Error,
    Event, Origin,
};

verus! {

/// Everything the staking pallet reads and writes, as mathematical values.
#[verifier::ext_equal]
pub struct StakingState {
    pub config: Config,
    /// Current block height.
    pub block_number: BlockNumber,
    /// Free and reserved funds per account.
    pub balances: Map<AccountId, AccountData>,
    /// Countries that exist.
    pub countries: Set<CountryId>,
    /// Unclaimed rewards per (account, country).
    pub rewards: Map<(AccountId, CountryId), Balance>,
    /// Staked funds per (account, country).
    pub staked: Map<(AccountId, CountryId), Balance>,
    /// Funds to release per (release block, account).
    pub unstake_requests: Map<(BlockNumber, AccountId), Balance>,
    /// Era ends: (block at which the era ends, era).
    pub era_info: Set<(BlockNumber, EraIndex)>,
    pub current_era: EraIndex,
    /// Events deposited so far, oldest first.
    pub events: Seq<Event>,
}

/// The value under `k`, zero where nothing is stored.
pub open spec fn value_or_zero<K>(m: Map<K, Balance>, k: K) -> Balance {
    if m.dom().contains(k) {
        m[k]
    } else {
        0
    }
}

impl StakingState {
    pub open spec fn staked_balance(self, who: AccountId, country: CountryId) -> Balance {
        value_or_zero(self.staked, (who, country))
    }

    pub open spec fn account_reward(self, who: AccountId, country: CountryId) -> Balance {
        value_or_zero(self.rewards, (who, country))
    }

    pub open spec fn unstake_request(self, at: BlockNumber, who: AccountId) -> Balance {
        value_or_zero(self.unstake_requests, (at, who))
    }

    pub open spec fn free_balance(self, who: AccountId) -> Balance {
        account_of(self.balances, who).free
    }

    pub open spec fn reserved_balance(self, who: AccountId) -> Balance {
        account_of(self.balances, who).reserved
    }

    pub open spec fn deposit(self, e: Event) -> StakingState {
        StakingState { events: self.events.push(e), ..self }
    }
}

/// Reserves `balance` of `who` (a refused reservation changes nothing) and
/// adds it to the stake of `who` on `country`.
pub open spec fn stake_funds(s: StakingState, who: AccountId, country: CountryId, balance: Balance) -> StakingState {
    StakingState {
        balances: match reserve_outcome(s.balances, who, balance) {
            Some(m) => m,
            None => s.balances,
        },
        staked: s.staked.insert((who, country), (s.staked_balance(who, country) + balance) as u64),
        ..s
    }
}

/// Adding `balance` to the stake of `who` on `country` does not overflow.
pub open spec fn stake_fits(s: StakingState, who: AccountId, country: CountryId, balance: Balance) -> bool {
    s.staked_balance(who, country) + balance <= u64::MAX
}

/// Outcome of `stake`.
pub open spec fn stake(s: StakingState, origin: Origin, country: CountryId, balance: Balance) -> (
    StakingState,
    Result<(), DispatchError>,
) {
    match signer_of(origin) {
        Err(e) => (s, Err(e)),
        Ok(who) => if !s.countries.contains(country) {
            (s, Err(DispatchError::Module(Error::CountryDoesNotExist)))
        } else if s.free_balance(who) < balance {
            (s, Err(DispatchError::Module(Error::InsufficientFreeBalance)))
        } else {
            (
                stake_funds(s, who, country, balance).deposit(
                    Event::BalanceStaked(who, country, balance),
                ),
                Ok(()),
            )
        },
    }
}

/// `stake` can run without an arithmetic overflow.
pub open spec fn stake_safe(s: StakingState, origin: Origin, country: CountryId, balance: Balance) -> bool {
    match origin {
        Origin::Signed(who) => s.countries.contains(country) && s.free_balance(who) >= balance
            ==> stake_fits(s, who, country, balance),
        _ => true,
    }
}

/// Outcome of `unstake`: the stake shrinks at once, the funds stay reserved
/// until the lock period has passed.
pub open spec fn unstake(s: StakingState, origin: Origin, country: CountryId, balance: Balance) -> (
    StakingState,
    Result<(), DispatchError>,
) {
    match signer_of(origin) {
        Err(e) => (s, Err(e)),
        Ok(who) => {
            let old_balance = s.staked_balance(who, country);
            if balance > old_balance {
                (s, Err(DispatchError::Module(Error::InsufficientStakedBalance)))
            } else {
                let end_time = (s.block_number + s.config.balance_lock_period) as u64;
                (
                    StakingState {
                        unstake_requests: s.unstake_requests.insert((end_time, who), balance),
                        staked: if old_balance != balance {
                            s.staked.insert((who, country), (old_balance - balance) as u64)
                        } else {
                            s.staked.remove((who, country))
                        },
                        ..s
                    }.deposit(Event::BalanceUnstaked(who, country, balance)),
                    Ok(()),
                )
            }
        },
    }
}

/// `unstake` can run without an arithmetic overflow.
pub open spec fn unstake_safe(s: StakingState, origin: Origin, country: CountryId, balance: Balance) -> bool {
    match origin {
        Origin::Signed(who) => balance <= s.staked_balance(who, country) ==> s.block_number
            + s.config.balance_lock_period <= u64::MAX,
        _ => true,
    }
}

/// Pays out the reward of `who` on `country` into the free funds of `who`
/// (a refused deposit is ignored) and clears it.
pub open spec fn claim_rewards(s: StakingState, who: AccountId, country: CountryId) -> (
    StakingState,
    Result<Balance, DispatchError>,
) {
    let reward = s.account_reward(who, country);
    if reward == 0 {
        (s, Err(DispatchError::Module(Error::NoRewardsAvailable)))
    } else {
        (
            StakingState {
                balances: match deposit_outcome(s.balances, who, reward) {
                    Some(m) => m,
                    None => s.balances,
                },
                rewards: s.rewards.remove((who, country)),
                ..s
            },
            Ok(reward),
        )
    }
}

/// Outcome of `claim`.
pub open spec fn claim(s: StakingState, origin: Origin, country: CountryId) -> (
    StakingState,
    Result<(), DispatchError>,
) {
    match signer_of(origin) {
        Err(e) => (s, Err(e)),
        Ok(who) => match claim_rewards(s, who, country) {
            (s1, Ok(reward)) => (
                s1.deposit(Event::StakingRewardClaimed(who, country, reward)),
                Ok(()),
            ),
            (s1, Err(e)) => (s1, Err(e)),
        },
    }
}

/// Outcome of `reinvest`: the reward is claimed and staked again.
pub open spec fn reinvest(s: StakingState, origin: Origin, country: CountryId) -> (
    StakingState,
    Result<(), DispatchError>,
) {
    match signer_of(origin) {
        Err(e) => (s, Err(e)),
        Ok(who) => match claim_rewards(s, who, country) {
            (s1, Ok(reward)) => (
                stake_funds(s1, who, country, reward).deposit(
                    Event::BalanceReinvested(who, country, reward),
                ),
                Ok(()),
            ),
            (s1, Err(e)) => (s1, Err(e)),
        },
    }
}

/// `reinvest` can run without an arithmetic overflow.
pub open spec fn reinvest_safe(s: StakingState, origin: Origin, country: CountryId) -> bool {
    match origin {
        Origin::Signed(who) => stake_fits(s, who, country, s.account_reward(who, country)),
        _ => true,
    }
}

/// The era that follows `era`; the counter stops at its maximum.
pub open spec fn next_era(era: EraIndex) -> EraIndex {
    if era == u32::MAX {
        era
    } else {
        (era + 1) as u32
    }
}

/// Starts the next era and records the block at which it ends: the first
/// era ends at `era_length`, each later one `era_length` blocks from now.
pub open spec fn start_new_era(s: StakingState) -> StakingState {
    let new_era = next_era(s.current_era);
    let era_end = if new_era == 1 {
        s.config.era_length
    } else {
        (s.block_number + s.config.era_length) as u64
    };
    StakingState { current_era: new_era, era_info: s.era_info.insert((era_end, new_era)), ..s }
}

/// `start_new_era` can run without an arithmetic overflow.
pub open spec fn start_new_era_safe(s: StakingState) -> bool {
    next_era(s.current_era) != 1 ==> s.block_number + s.config.era_length <= u64::MAX
}

/// The era reward of a stake.
pub open spec fn era_reward(s: StakingState, stake: Balance) -> Balance {
    (stake / (s.config.default_reward_multiplier as u64)) as u64
}

/// Credits every stake with its era reward and records the payout.
pub open spec fn calculate_era_rewards(s: StakingState) -> StakingState {
    StakingState {
        rewards: Map::new(
            |k: (AccountId, CountryId)| s.rewards.dom().contains(k) || s.staked.dom().contains(k),
            |k: (AccountId, CountryId)|
                if s.staked.dom().contains(k) {
                    (value_or_zero(s.rewards, k) + era_reward(s, s.staked[k])) as u64
                } else {
                    s.rewards[k]
                },
        ),
        ..s
    }.deposit(Event::EraPayout(s.current_era))
}

/// The era payout divides by a nonzero multiplier and no reward overflows.
pub open spec fn payout_safe(s: StakingState) -> bool {
    forall|k: (AccountId, CountryId)|
        #[trigger] s.staked.dom().contains(k) ==> s.config.default_reward_multiplier > 0
            && value_or_zero(s.rewards, k) + era_reward(s, s.staked[k]) <= u64::MAX
}

/// The era bookkeeping at the end of block `now`: block 1 starts the first
/// era, and the block at which the current era ends pays out the era
/// rewards and starts the next era.
pub open spec fn era_step(s: StakingState, now: BlockNumber) -> StakingState {
    let s1 = if now == 1 {
        start_new_era(s)
    } else {
        s
    };
    if s1.era_info.contains((now, s1.current_era)) {
        start_new_era(calculate_era_rewards(s1))
    } else {
        s1
    }
}

/// `era_step` can run without an arithmetic overflow or a division by zero.
pub open spec fn era_step_safe(s: StakingState, now: BlockNumber) -> bool {
    let s1 = if now == 1 {
        start_new_era(s)
    } else {
        s
    };
    &&& now == 1 ==> start_new_era_safe(s)
    &&& s1.era_info.contains((now, s1.current_era)) ==> payout_safe(s1) && start_new_era_safe(s1)
}

/// The ledger once each request maturing at `now` has been unreserved.
pub open spec fn release_unstaked(
    balances: Map<AccountId, AccountData>,
    requests: Map<(BlockNumber, AccountId), Balance>,
    now: BlockNumber,
) -> Map<AccountId, AccountData> {
    Map::new(
        |who: AccountId| balances.dom().contains(who),
        |who: AccountId|
            if requests.dom().contains((now, who)) {
                unreserve_outcome(balances, who, requests[(now, who)]).0[who]
            } else {
                balances[who]
            },
    )
}

/// `completed` reports each request maturing at `now` once, in some order.
pub open spec fn reports_completed(
    completed: Seq<Event>,
    requests: Map<(BlockNumber, AccountId), Balance>,
    now: BlockNumber,
) -> bool {
    &&& forall|i: int|
        0 <= i < completed.len() ==> match #[trigger] completed[i] {
            Event::UnstakeRequestCompleted(who, funds) => requests.dom().contains((now, who))
                && requests[(now, who)] == funds,
            _ => false,
        }
    &&& forall|who: AccountId|
        #[trigger] requests.dom().contains((now, who)) ==> exists|i: int|
            0 <= i < completed.len() && #[trigger] completed[i] == Event::UnstakeRequestCompleted(
                who,
                requests[(now, who)],
            )
    &&& forall|i: int, j: int|
        0 <= i < completed.len() && 0 <= j < completed.len() && i != j ==> #[trigger] completed[i]
            != #[trigger] completed[j]
}

/// The account of an unstake-completion event.
pub open spec fn completed_account(e: Event) -> AccountId {
    match e {
        Event::UnstakeRequestCompleted(who, _) => who,
        _ => 0,
    }
}

/// The completion events come in the order in which storage walks the
/// requests of a block: increasing `Twox64Concat` storage key of the account.
pub open spec fn in_storage_order(completed: Seq<Event>) -> bool {
    forall|i: int, j: int|
        0 <= i < j < completed.len() ==> key_less(
            account_key(completed_account(#[trigger] completed[i])),
            account_key(completed_account(#[trigger] completed[j])),
        )
}

/// `t` is the state after the end of block `now` in state `s`: the era
/// bookkeeping, then every unstake request maturing at `now` is unreserved,
/// removed and reported, in storage order.
pub open spec fn finalized(s: StakingState, now: BlockNumber, t: StakingState) -> bool {
    let s1 = era_step(s, now);
    &&& t.config == s1.config
    &&& t.block_number == s1.block_number
    &&& t.countries == s1.countries
    &&& t.rewards == s1.rewards
    &&& t.staked == s1.staked
    &&& t.era_info == s1.era_info
    &&& t.current_era == s1.current_era
    &&& t.balances == release_unstaked(s1.balances, s1.unstake_requests, now)
    &&& t.unstake_requests == without_prefix(s1.unstake_requests, now)
    &&& t.events.len() >= s1.events.len()
    &&& t.events.subrange(0, s1.events.len() as int) == s1.events
    &&& reports_completed(t.events.skip(s1.events.len() as int), s1.unstake_requests, now)
    &&& in_storage_order(t.events.skip(s1.events.len() as int))
}

/// `t` is the state one block after `s`: the end of block `s.block_number`,
/// then the move to the next block.
pub open spec fn next_block(s: StakingState, t: StakingState) -> bool {
    &&& t.block_number == s.block_number + 1
    &&& finalized(s, s.block_number, StakingState { block_number: s.block_number, ..t })
}

/// `run` is a sequence of states, each one block after the one before.
pub open spec fn is_run(run: Seq<StakingState>) -> bool {
    forall|i: int| 0 <= i < run.len() - 1 ==> next_block(#[trigger] run[i], run[i + 1])
}

} // verus!

use vstd::prelude::*;

verus! {

/// Account identifiers.
pub type AccountId = u128;

/// Identifier of a country (a metaverse) that balances are staked on.
pub type CountryId = u64;

/// Token amounts.
pub type Balance = u64;

/// Block heights.
pub type BlockNumber = u64;

/// Staking era counter.
pub type EraIndex = u32;

/// Origin of a dispatched call.
#[derive(Clone, Copy, Debug, PartialEq, Eq, Structural)]
pub enum Origin {
    /// Signed by an account.
    Signed(AccountId),
    /// The privileged root origin.
    Root,
    /// No signer at all.
    Unsigned,
}

/// The signer of `origin`, or `BadOrigin` when the call is not signed.
pub open spec fn signer_of(origin: Origin) -> Result<AccountId, DispatchError> {
    match origin {
        Origin::Signed(who) => Ok(who),
        _ => Err(DispatchError::BadOrigin),
    }
}

/// The account that signed `origin`; calls that are not signed are refused.
pub fn ensure_signed(origin: Origin) -> (r: Result<AccountId, DispatchError>)
    ensures
        r == signer_of(origin),
{
    match origin {
        Origin::Signed(who) => Ok(who),
        _ => Err(DispatchError::BadOrigin),
    }
}

/// Runtime constants of the staking pallet.
#[derive(Clone, Copy, Debug, PartialEq, Eq, Structural)]
pub struct Config {
    /// Number of blocks unstaked funds stay reserved.
    pub balance_lock_period: BlockNumber,
    /// Number of blocks in an era.
    pub era_length: BlockNumber,
    /// Each era pays `staked / default_reward_multiplier` as reward.
    pub default_reward_multiplier: u32,
}

/// Events deposited by the staking pallet.
#[derive(Clone, Copy, Debug, PartialEq, Eq, Structural)]
pub enum Event {
    EraPayout(EraIndex),
    StakingRewardClaimed(AccountId, CountryId, Balance),
    BalanceStaked(AccountId, CountryId, Balance),
    BalanceUnstaked(AccountId, CountryId, Balance),
    UnstakeRequestCompleted(AccountId, Balance),
    BalanceReinvested(AccountId, CountryId, Balance),
}

/// Errors of the staking pallet.
#[derive(Clone, Copy, Debug, PartialEq, Eq, Structural)]
pub enum Error {
    CountryDoesNotExist,
    InsufficientFreeBalance,
    InsufficientStakedBalance,
    NoRewardsAvailable,
}

/// Why a dispatched call was refused.
#[derive(Clone, Copy, Debug, PartialEq, Eq, Structural)]
pub enum DispatchError {
    /// The call needed a signed origin.
    BadOrigin,
    /// The staking pallet refused the call.
    Module(Error),
}

} // verus!

use vstd::prelude::*;

use vstd::bytes::spec_u128_to_le_bytes;

use crate::balances::{unreserve_outcome, Balances};
use crate::hashing::{
    account_key, account_storage_key, key_less, key_precedes, lemma_account_key_injective,
    lemma_key_less_irreflexive, lemma_key_less_total, lemma_key_less_transitive, twox_64_of,
};
use crate::model::{
    calculate_era_rewards, claim, claim_rewards, era_reward, era_step, era_step_safe, finalized,
    completed_account, in_storage_order, payout_safe, reinvest, reinvest_safe, release_unstaked, reports_completed, stake, stake_fits,
    stake_funds, stake_safe, start_new_era, start_new_era_safe, unstake, unstake_safe, value_or_zero,
    StakingState,
};
use crate::storage::{without_prefix, StorageMap};
use crate::weights::Weight;
use crate::types::{
    ensure_signed, AccountId, Balance, BlockNumber, Config, CountryId, DispatchError, EraIndex, Error,
    Event, Origin,
};

verus! {

/// The staking pallet: accounts stake free funds on countries, every era
/// pays each stake a reward, rewards can be claimed or staked again, and
/// unstaked funds are released once a lock period has passed.
pub struct Pallet {
    config: Config,
    block_number: BlockNumber,
    balances: Balances,
    countries: StorageMap<CountryId, ()>,
    rewards: StorageMap<(AccountId, CountryId), Balance>,
    staked_balances: StorageMap<(AccountId, CountryId), Balance>,
    unstake_requests: StorageMap<(BlockNumber, AccountId), Balance>,
    era_information: StorageMap<(BlockNumber, EraIndex), ()>,
    current_era: EraIndex,
    events: Vec<Event>,
}

impl View for Pallet {
    type V = StakingState;

    closed spec fn view(&self) -> StakingState {
        StakingState {
            config: self.config,
            block_number: self.block_number,
            balances: self.balances@,
            countries: self.countries@.dom(),
            rewards: self.rewards@,
            staked: self.staked_balances@,
            unstake_requests: self.unstake_requests@,
            era_info: self.era_information@.dom(),
            current_era: self.current_era,
            events: self.events@,
        }
    }
}

/// Whether stake `k` has been visited among the first `i` stored stakes.
spec fn visited(entries: Seq<((AccountId, CountryId), Balance)>, i: int, k: (AccountId, CountryId)) -> bool {
    exists|j: int| 0 <= j < i && #[trigger] entries[j].0 == k
}

/// Whether `who` is among the first `i` drained requests.
spec fn released(drained: Seq<(AccountId, Balance)>, i: int, who: AccountId) -> bool {
    exists|j: int| 0 <= j < i && #[trigger] drained[j].0 == who
}

/// Every entry of `sorted` is one of the first `i` entries of `drained`.
#[verifier::opaque]
spec fn from_prefix(sorted: Seq<(AccountId, Balance)>, drained: Seq<(AccountId, Balance)>, i: int) -> bool {
    forall|j: int|
        #![trigger sorted[j]]
        0 <= j < sorted.len() ==> exists|m: int| #![trigger drained[m]] 0 <= m < i && drained[m] == sorted[j]
}

/// Each of the first `i` entries of `drained` is in `sorted`.
#[verifier::opaque]
spec fn covers_prefix(sorted: Seq<(AccountId, Balance)>, drained: Seq<(AccountId, Balance)>, i: int) -> bool {
    forall|m: int|
        #![trigger drained[m]]
        0 <= m < i ==> exists|j: int| #![trigger sorted[j]] 0 <= j < sorted.len() && sorted[j] == drained[m]
}

/// `sorted` holds exactly the first `i` entries of `drained`.
spec fn holds_prefix(sorted: Seq<(AccountId, Balance)>, drained: Seq<(AccountId, Balance)>, i: int) -> bool {
    from_prefix(sorted, drained, i) && covers_prefix(sorted, drained, i)
}

/// The accounts of `s` come in increasing storage-key order.
#[verifier::opaque]
pub open spec fn sorted_by_account_key(s: Seq<(AccountId, Balance)>) -> bool {
    forall|j: int, l: int|
        0 <= j < l < s.len() ==> key_less(account_key(#[trigger] s[j].0), account_key(#[trigger] s[l].0))
}

proof fn lemma_holds_prefix_insert(
    old_sorted: Seq<(AccountId, Balance)>,
    drained: Seq<(AccountId, Balance)>,
    i: int,
    p: int,
)
    requires
        holds_prefix(old_sorted, drained, i),
        0 <= i < drained.len(),
        0 <= p <= old_sorted.len(),
    ensures
        holds_prefix(old_sorted.insert(p, drained[i]), drained, i + 1),
{
    lemma_from_prefix_insert(old_sorted, drained, i, p);
    lemma_covers_prefix_insert(old_sorted, drained, i, p);
}

proof fn lemma_from_prefix_insert(
    old_sorted: Seq<(AccountId, Balance)>,
    drained: Seq<(AccountId, Balance)>,
    i: int,
    p: int,
)
    requires
        from_prefix(old_sorted, drained, i),
        0 <= i < drained.len(),
        0 <= p <= old_sorted.len(),
    ensures
        from_prefix(old_sorted.insert(p, drained[i]), drained, i + 1),
{
    reveal(from_prefix);
    let new_sorted = old_sorted.insert(p, drained[i]);
    assert forall|j: int| 0 <= j < new_sorted.len() implies exists|m: int|
        #![trigger drained[m]]
        0 <= m < i + 1 && drained[m] == #[trigger] new_sorted[j] by {
        if j < p {
            assert(new_sorted[j] == old_sorted[j]);
            let m = choose|m: int| #![trigger drained[m]] 0 <= m < i && drained[m] == old_sorted[j];
            assert(drained[m] == new_sorted[j]);
        } else if j > p {
            assert(new_sorted[j] == old_sorted[j - 1]);
            let m = choose|m: int| #![trigger drained[m]] 0 <= m < i && drained[m] == old_sorted[j - 1];
            assert(drained[m] == new_sorted[j]);
        } else {
            assert(drained[i] == new_sorted[j]);
        }
    }
}

proof fn lemma_covers_prefix_insert(
    old_sorted: Seq<(AccountId, Balance)>,
    drained: Seq<(AccountId, Balance)>,
    i: int,
    p: int,
)
    requires
        covers_prefix(old_sorted, drained, i),
        0 <= i < drained.len(),
        0 <= p <= old_sorted.len(),
    ensures
        covers_prefix(old_sorted.insert(p, drained[i]), drained, i + 1),
{
    reveal(covers_prefix);
    let new_sorted = old_sorted.insert(p, drained[i]);
    assert forall|m: int| 0 <= m < i + 1 implies exists|j: int|
        #![trigger new_sorted[j]]
        0 <= j < new_sorted.len() && new_sorted[j] == #[trigger] drained[m] by {
        if m == i {
            assert(new_sorted[p] == drained[m]);
        } else {
            let j = choose|j: int| #![trigger old_sorted[j]] 0 <= j < old_sorted.len() && old_sorted[j] == drained[m];
            if j < p {
                assert(new_sorted[j] == drained[m]);
            } else {
                assert(new_sorted[j + 1] == drained[m]);
            }
        }
    }
}

proof fn lemma_sorted_insert(old_sorted: Seq<(AccountId, Balance)>, p: int, e: (AccountId, Balance))
    requires
        sorted_by_account_key(old_sorted),
        0 <= p <= old_sorted.len(),
        forall|j: int| 0 <= j < p ==> key_less(account_key(#[trigger] old_sorted[j].0), account_key(e.0)),
        p < old_sorted.len() ==> key_less(account_key(e.0), account_key(old_sorted[p].0)),
    ensures
        sorted_by_account_key(old_sorted.insert(p, e)),
{
    reveal(sorted_by_account_key);
    let s = old_sorted.insert(p, e);
    assert forall|j: int, l: int| 0 <= j < l < s.len() implies key_less(
        account_key(#[trigger] s[j].0),
        account_key(#[trigger] s[l].0),
    ) by {
        let oj = if j < p { j } else { j - 1 };
        let ol = if l < p { l } else { l - 1 };
        if j == p {
            assert(s[l] == old_sorted[ol]);
            if ol > p {
                assert(key_less(account_key(old_sorted[p].0), account_key(old_sorted[ol].0)));
                lemma_key_less_transitive(
                    account_key(e.0),
                    account_key(old_sorted[p].0),
                    account_key(old_sorted[ol].0),
                );
            }
        } else if l == p {
            assert(s[j] == old_sorted[oj]);
        } else {
            assert(s[j] == old_sorted[oj]);
            assert(s[l] == old_sorted[ol]);
        }
    }
}

/// The first position whose key comes after `k` (the length when none does).
fn insertion_point(
    keys: &Vec<Vec<u8>>,
    k: &Vec<u8>,
    Ghost(sorted): Ghost<Seq<(AccountId, Balance)>>,
    Ghost(who): Ghost<AccountId>,
) -> (p: usize)
    requires
        keys@.len() == sorted.len(),
        forall|j: int|
            0 <= j < sorted.len() ==> {
                &&& (#[trigger] keys@[j])@ == account_key(sorted[j].0)
                &&& twox_64_of(spec_u128_to_le_bytes(sorted[j].0)).len() == 8
            },
        k@ == account_key(who),
        twox_64_of(spec_u128_to_le_bytes(who)).len() == 8,
        forall|j: int| 0 <= j < sorted.len() ==> #[trigger] sorted[j].0 != who,
    ensures
        p <= sorted.len(),
        forall|j: int| 0 <= j < p ==> key_less(account_key(#[trigger] sorted[j].0), account_key(who)),
        p < sorted.len() ==> key_less(account_key(who), account_key(sorted[p as int].0)),
{
    let n: usize = keys.len();
    let mut p: usize = 0;
    let mut found: bool = false;
    while p < n && !found
        invariant
            n == keys@.len(),
            n == sorted.len(),
            p <= n,
            k@ == account_key(who),
            twox_64_of(spec_u128_to_le_bytes(who)).len() == 8,
            forall|j: int|
                0 <= j < n ==> {
                    &&& (#[trigger] keys@[j])@ == account_key(sorted[j].0)
                    &&& twox_64_of(spec_u128_to_le_bytes(sorted[j].0)).len() == 8
                },
            forall|j: int| 0 <= j < n ==> #[trigger] sorted[j].0 != who,
            forall|j: int| 0 <= j < p ==> key_less(account_key(#[trigger] sorted[j].0), k@),
            found ==> p < n && key_less(k@, account_key(sorted[p as int].0)),
        decreases n - p + (if found { 0int } else { 1int }),
    {
        assert(keys@[p as int]@ == account_key(sorted[p as int].0));
        proof {
            lemma_account_key_injective(sorted[p as int].0, who);
        }
        if key_precedes(k, &keys[p]) {
            found = true;
        } else {
            proof {
                lemma_key_less_total(keys@[p as int]@, k@);
            }
            p = p + 1;
        }
    }
    p
}

/// `keys` holds the storage key of each account of `sorted`, whose hashes
/// are 8 bytes long.
#[verifier::opaque]
spec fn keys_match(keys: Seq<Vec<u8>>, sorted: Seq<(AccountId, Balance)>) -> bool {
    &&& keys.len() == sorted.len()
    &&& forall|j: int|
        0 <= j < sorted.len() ==> {
            &&& (#[trigger] keys[j])@ == account_key(sorted[j].0)
            &&& twox_64_of(spec_u128_to_le_bytes(sorted[j].0)).len() == 8
        }
}

proof fn lemma_keys_match_insert(
    keys: Seq<Vec<u8>>,
    sorted: Seq<(AccountId, Balance)>,
    p: int,
    k: Vec<u8>,
    e: (AccountId, Balance),
)
    requires
        keys_match(keys, sorted),
        0 <= p <= sorted.len(),
        k@ == account_key(e.0),
        twox_64_of(spec_u128_to_le_bytes(e.0)).len() == 8,
    ensures
        keys_match(keys.insert(p, k), sorted.insert(p, e)),
{
    reveal(keys_match);
    let nk = keys.insert(p, k);
    let ns = sorted.insert(p, e);
    assert forall|j: int| 0 <= j < ns.len() implies {
        &&& (#[trigger] nk[j])@ == account_key(ns[j].0)
        &&& twox_64_of(spec_u128_to_le_bytes(ns[j].0)).len() == 8
    } by {
        if j < p {
            assert(nk[j] == keys[j]);
            assert(ns[j] == sorted[j]);
        } else if j > p {
            assert(nk[j] == keys[j - 1]);
            assert(ns[j] == sorted[j - 1]);
        }
    }
}

/// The accounts of the first `i` entries of `drained` differ from `who`.
proof fn lemma_new_account(sorted: Seq<(AccountId, Balance)>, drained: Seq<(AccountId, Balance)>, i: int)
    requires
        holds_prefix(sorted, drained, i),
        0 <= i < drained.len(),
        forall|a: int, b: int|
            0 <= a < drained.len() && 0 <= b < drained.len() && a != b
                ==> #[trigger] drained[a].0 != #[trigger] drained[b].0,
    ensures
        forall|j: int| 0 <= j < sorted.len() ==> #[trigger] sorted[j].0 != drained[i].0,
{
    reveal(from_prefix);
    assert forall|j: int| 0 <= j < sorted.len() implies #[trigger] sorted[j].0 != drained[i].0 by {
        let m = choose|m: int| #![trigger drained[m]] 0 <= m < i && drained[m] == sorted[j];
        assert(drained[m].0 != drained[i].0);
    }
}

/// Puts drained requests in the order in which storage walks their keys:
/// increasing storage key of the account.
fn sort_by_account_key(drained: &Vec<(AccountId, Balance)>) -> (sorted: Vec<(AccountId, Balance)>)
    requires
        forall|i: int, j: int|
            0 <= i < drained@.len() && 0 <= j < drained@.len() && i != j
                ==> #[trigger] drained@[i].0 != #[trigger] drained@[j].0,
    ensures
        sorted@.len() == drained@.len(),
        holds_prefix(sorted@, drained@, drained@.len() as int),
        sorted_by_account_key(sorted@),
{
    let n: usize = drained.len();
    let mut sorted: Vec<(AccountId, Balance)> = Vec::new();
    let mut keys: Vec<Vec<u8>> = Vec::new();
    let mut i: usize = 0;
    proof {
        reveal(from_prefix);
        reveal(covers_prefix);
        reveal(sorted_by_account_key);
        reveal(keys_match);
    }
    while i < n
        invariant
            n == drained@.len(),
            i <= n,
            forall|a: int, b: int|
                0 <= a < drained@.len() && 0 <= b < drained@.len() && a != b
                    ==> #[trigger] drained@[a].0 != #[trigger] drained@[b].0,
            sorted@.len() == i,
            keys_match(keys@, sorted@),
            holds_prefix(sorted@, drained@, i as int),
            sorted_by_account_key(sorted@),
        decreases n - i,
    {
        let e: (AccountId, Balance) = drained[i];
        let k: Vec<u8> = account_storage_key(e.0);
        let ghost old_sorted = sorted@;
        let ghost old_keys = keys@;
        proof {
            lemma_new_account(old_sorted, drained@, i as int);
            reveal(keys_match);
        }
        let p: usize = insertion_point(&keys, &k, Ghost(old_sorted), Ghost(e.0));
        proof {
            lemma_holds_prefix_insert(old_sorted, drained@, i as int, p as int);
            lemma_sorted_insert(old_sorted, p as int, e);
            lemma_keys_match_insert(old_keys, old_sorted, p as int, k, e);
        }
        sorted.insert(p, e);
        keys.insert(p, k);
        i = i + 1;
    }
    sorted
}

impl Pallet {
    pub closed spec fn wf(&self) -> bool {
        &&& self.balances.wf()
        &&& self.countries.wf()
        &&& self.rewards.wf()
        &&& self.staked_balances.wf()
        &&& self.unstake_requests.wf()
        &&& self.era_information.wf()
    }

    /// Genesis: no countries, stakes, rewards or requests, era 0, block 0.
    pub fn new(config: Config, balances: Balances) -> (p: Self)
        requires
            balances.wf(),
        ensures
            p.wf(),
            p@ == (StakingState {
                config,
                block_number: 0,
                balances: balances@,
                countries: Set::empty(),
                rewards: Map::empty(),
                staked: Map::empty(),
                unstake_requests: Map::empty(),
                era_info: Set::empty(),
                current_era: 0,
                events: Seq::empty(),
            }),
    {
        let p = Pallet {
            config,
            block_number: 0,
            balances,
            countries: StorageMap::new(),
            rewards: StorageMap::new(),
            staked_balances: StorageMap::new(),
            unstake_requests: StorageMap::new(),
            era_information: StorageMap::new(),
            current_era: 0,
            events: Vec::new(),
        };
        assert(p@.countries =~= Set::empty());
        assert(p@.era_info =~= Set::empty());
        p
    }

    /// Weight declared for each dispatchable call of the pallet (`stake`,
    /// `unstake`, `claim` and `reinvest`): 10 000 units of reference time.
    pub fn call_weight() -> (w: Weight)
        ensures
            w == (Weight { ref_time: 10_000, proof_size: 0 }),
    {
        Weight::from_parts(10_000, 0)
    }

    /// Moves to block `n`.
    pub fn set_block_number(&mut self, n: BlockNumber)
        requires
            old(self).wf(),
        ensures
            final(self).wf(),
            final(self)@ == (StakingState { block_number: n, ..old(self)@ }),
    {
        self.block_number = n;
    }

    /// Records that `country` exists.
    pub fn register_country(&mut self, country: CountryId)
        requires
            old(self).wf(),
        ensures
            final(self).wf(),
            final(self)@ == (StakingState { countries: old(self)@.countries.insert(country), ..old(self)@ }),
    {
        self.countries.insert(country, ());
        assert(self@.countries =~= old(self)@.countries.insert(country));
    }

    /// Sets the unclaimed reward of `who` on `country`.
    pub fn insert_reward(&mut self, who: AccountId, country: CountryId, amount: Balance)
        requires
            old(self).wf(),
        ensures
            final(self).wf(),
            final(self)@ == (StakingState {
                rewards: old(self)@.rewards.insert((who, country), amount),
                ..old(self)@
            }),
    {
        self.rewards.insert((who, country), amount);
    }

    pub fn config(&self) -> (c: Config)
        ensures
            c == self@.config,
    {
        self.config
    }

    pub fn block_number(&self) -> (n: BlockNumber)
        ensures
            n == self@.block_number,
    {
        self.block_number
    }

    /// The currency ledger.
    pub fn balances(&self) -> (b: &Balances)
        requires
            self.wf(),
        ensures
            b.wf(),
            b@ == self@.balances,
    {
        &self.balances
    }

    /// Unclaimed reward of `who` on `country`.
    pub fn account_rewards(&self, who: AccountId, country: CountryId) -> (r: Balance)
        requires
            self.wf(),
        ensures
            r == self@.account_reward(who, country),
    {
        match self.rewards.get(&(who, country)) {
            Some(v) => v,
            None => 0,
        }
    }

    /// Funds `who` has staked on `country`.
    pub fn staked_balance(&self, who: AccountId, country: CountryId) -> (r: Balance)
        requires
            self.wf(),
        ensures
            r == self@.staked_balance(who, country),
    {
        match self.staked_balances.get(&(who, country)) {
            Some(v) => v,
            None => 0,
        }
    }

    /// Funds of `who` released at block `at`.
    pub fn unstake_request(&self, at: BlockNumber, who: AccountId) -> (r: Balance)
        requires
            self.wf(),
        ensures
            r == self@.unstake_request(at, who),
    {
        match self.unstake_requests.get(&(at, who)) {
            Some(v) => v,
            None => 0,
        }
    }

    /// Whether era `era` ends at block `at`.
    pub fn era_info(&self, at: BlockNumber, era: EraIndex) -> (r: bool)
        requires
            self.wf(),
        ensures
            r == self@.era_info.contains((at, era)),
    {
        self.era_information.contains_key(&(at, era))
    }

    pub fn current_era(&self) -> (r: EraIndex)
        ensures
            r == self@.current_era,
    {
        self.current_era
    }

    /// Events deposited so far, oldest first.
    pub fn events(&self) -> (r: &Vec<Event>)
        ensures
            r@ == self@.events,
    {
        &self.events
    }

    /// The most recent event.
    pub fn last_event(&self) -> (r: Option<Event>)
        ensures
            r == (if self@.events.len() > 0 {
                Some(self@.events.last())
            } else {
                None::<Event>
            }),
    {
        let n: usize = self.events.len();
        if n > 0 {
            Some(self.events[n - 1])
        } else {
            None
        }
    }

    fn deposit_event(&mut self, e: Event)
        requires
            old(self).wf(),
        ensures
            final(self).wf(),
            final(self)@ == old(self)@.deposit(e),
    {
        self.events.push(e);
    }

    fn stake_funds(&mut self, who: AccountId, country: CountryId, balance: Balance) -> (r: Result<
        Balance,
        DispatchError,
    >)
        requires
            old(self).wf(),
            stake_fits(old(self)@, who, country, balance),
        ensures
            final(self).wf(),
            final(self)@ == stake_funds(old(self)@, who, country, balance),
            r == Ok::<Balance, DispatchError>(balance),
    {
        let _ = self.balances.reserve(who, balance);
        let staked: Balance = self.staked_balance(who, country);
        self.staked_balances.insert((who, country), staked + balance);
        Ok(balance)
    }

    /// Stakes `balance` of the signer's free funds on `country`.
    pub fn stake(&mut self, origin: Origin, country: CountryId, balance: Balance) -> (r: Result<
        (),
        DispatchError,
    >)
        requires
            old(self).wf(),
            stake_safe(old(self)@, origin, country, balance),
        ensures
            final(self).wf(),
            final(self)@ == stake(old(self)@, origin, country, balance).0,
            r == stake(old(self)@, origin, country, balance).1,
    {
        let who = match ensure_signed(origin) {
            Ok(who) => who,
            Err(e) => return Err(e),
        };
        if !self.countries.contains_key(&country) {
            return Err(DispatchError::Module(Error::CountryDoesNotExist));
        }
        if self.balances.free_balance(who) < balance {
            return Err(DispatchError::Module(Error::InsufficientFreeBalance));
        }
        let _ = self.stake_funds(who, country, balance);
        self.deposit_event(Event::BalanceStaked(who, country, balance));
        Ok(())
    }

    /// Withdraws `balance` from the signer's stake on `country`; the funds
    /// stay reserved until `balance_lock_period` blocks from now.
    pub fn unstake(&mut self, origin: Origin, country: CountryId, balance: Balance) -> (r: Result<
        (),
        DispatchError,
    >)
        requires
            old(self).wf(),
            unstake_safe(old(self)@, origin, country, balance),
        ensures
            final(self).wf(),
            final(self)@ == unstake(old(self)@, origin, country, balance).0,
            r == unstake(old(self)@, origin, country, balance).1,
    {
        let who = match ensure_signed(origin) {
            Ok(who) => who,
            Err(e) => return Err(e),
        };
        let old_balance: Balance = self.staked_balance(who, country);
        if balance > old_balance {
            return Err(DispatchError::Module(Error::InsufficientStakedBalance));
        }
        let end_time: BlockNumber = self.block_number + self.config.balance_lock_period;
        self.unstake_requests.insert((end_time, who), balance);
        self.staked_balances.remove(&(who, country));
        if old_balance != balance {
            self.staked_balances.insert((who, country), old_balance - balance);
        }
        self.deposit_event(Event::BalanceUnstaked(who, country, balance));
        Ok(())
    }

    fn claim_rewards(&mut self, who: AccountId, country: CountryId) -> (r: Result<Balance, DispatchError>)
        requires
            old(self).wf(),
        ensures
            final(self).wf(),
            final(self)@ == claim_rewards(old(self)@, who, country).0,
            r == claim_rewards(old(self)@, who, country).1,
    {
        let reward_balance: Balance = self.account_rewards(who, country);
        if reward_balance == 0 {
            return Err(DispatchError::Module(Error::NoRewardsAvailable));
        }
        let _ = self.balances.deposit_into_existing(who, reward_balance);
        self.rewards.remove(&(who, country));
        Ok(reward_balance)
    }

    /// Pays the signer's reward on `country` into its free funds.
    pub fn claim(&mut self, origin: Origin, country: CountryId) -> (r: Result<(), DispatchError>)
        requires
            old(self).wf(),
        ensures
            final(self).wf(),
            final(self)@ == claim(old(self)@, origin, country).0,
            r == claim(old(self)@, origin, country).1,
    {
        let who = match ensure_signed(origin) {
            Ok(who) => who,
            Err(e) => return Err(e),
        };
        let reward = match self.claim_rewards(who, country) {
            Ok(reward) => reward,
            Err(e) => return Err(e),
        };
        self.deposit_event(Event::StakingRewardClaimed(who, country, reward));
        Ok(())
    }

    /// Claims the signer's reward on `country` and stakes it there again.
    pub fn reinvest(&mut self, origin: Origin, country: CountryId) -> (r: Result<(), DispatchError>)
        requires
            old(self).wf(),
            reinvest_safe(old(self)@, origin, country),
        ensures
            final(self).wf(),
            final(self)@ == reinvest(old(self)@, origin, country).0,
            r == reinvest(old(self)@, origin, country).1,
    {
        let who = match ensure_signed(origin) {
            Ok(who) => who,
            Err(e) => return Err(e),
        };
        let claimed_reward = match self.claim_rewards(who, country) {
            Ok(reward) => reward,
            Err(e) => return Err(e),
        };
        let _ = self.stake_funds(who, country, claimed_reward);
        self.deposit_event(Event::BalanceReinvested(who, country, claimed_reward));
        Ok(())
    }

    fn start_new_era(&mut self) -> (r: Result<(), ()>)
        requires
            old(self).wf(),
            start_new_era_safe(old(self)@),
        ensures
            final(self).wf(),
            final(self)@ == start_new_era(old(self)@),
            r == Ok::<(), ()>(()),
    {
        let new_era_index: EraIndex = self.current_era.saturating_add(1);
        self.current_era = new_era_index;
        if new_era_index == 1 {
            self.era_information.insert((self.config.era_length, new_era_index), ());
        } else {
            let new_era_end: BlockNumber = self.block_number + self.config.era_length;
            self.era_information.insert((new_era_end, new_era_index), ());
        }
        assert(self@.era_info =~= start_new_era(old(self)@).era_info);
        Ok(())
    }

    fn calculate_era_rewards_onchain(&mut self) -> (r: Result<(), ()>)
        requires
            old(self).wf(),
            payout_safe(old(self)@),
        ensures
            final(self).wf(),
            final(self)@ == calculate_era_rewards(old(self)@),
            r == Ok::<(), ()>(()),
    {
        let ghost s0 = self@;
        let ghost entries = self.staked_balances.entries();
        proof {
            self.staked_balances.lemma_entries();
        }
        let n: usize = self.staked_balances.len();
        let multiplier: Balance = self.config.default_reward_multiplier as u64;
        let mut i: usize = 0;
        while i < n
            invariant
                self.wf(),
                s0 == old(self)@,
                payout_safe(s0),
                n == entries.len(),
                i <= n,
                multiplier == s0.config.default_reward_multiplier as u64,
                self.staked_balances.entries() == entries,
                self@ == (StakingState { rewards: self@.rewards, ..s0 }),
                forall|j: int|
                    0 <= j < entries.len() ==> {
                        &&& s0.staked.dom().contains(#[trigger] entries[j].0)
                        &&& s0.staked[entries[j].0] == entries[j].1
                    },
                forall|k: (AccountId, CountryId)|
                    #[trigger] s0.staked.dom().contains(k) ==> exists|j: int|
                        0 <= j < entries.len() && #[trigger] entries[j].0 == k,
                forall|j: int, l: int|
                    0 <= j < entries.len() && 0 <= l < entries.len() && j != l
                        ==> #[trigger] entries[j].0 != #[trigger] entries[l].0,
                self@.rewards == Map::new(
                    |k: (AccountId, CountryId)| s0.rewards.dom().contains(k) || visited(entries, i as int, k),
                    |k: (AccountId, CountryId)|
                        if visited(entries, i as int, k) {
                            (value_or_zero(s0.rewards, k) + era_reward(s0, s0.staked[k])) as u64
                        } else {
                            s0.rewards[k]
                        },
                ),
            decreases n - i,
        {
            let (key, stake_value) = self.staked_balances.entry_at(i);
            assert(key == entries[i as int].0);
            assert(!visited(entries, i as int, key)) by {
                if visited(entries, i as int, key) {
                    let j = choose|j: int| 0 <= j < i && #[trigger] entries[j].0 == key;
                    assert(entries[j].0 != entries[i as int].0);
                }
            }
            assert(s0.staked.dom().contains(key));
            let current: Balance = match self.rewards.get(&key) {
                Some(v) => v,
                None => 0,
            };
            assert(current == value_or_zero(s0.rewards, key));
            let era_reward_value: Balance = stake_value / multiplier;
            self.rewards.insert(key, current + era_reward_value);
            proof {
                let ghost target = Map::new(
                    |k: (AccountId, CountryId)| s0.rewards.dom().contains(k) || visited(entries, i + 1, k),
                    |k: (AccountId, CountryId)|
                        if visited(entries, i + 1, k) {
                            (value_or_zero(s0.rewards, k) + era_reward(s0, s0.staked[k])) as u64
                        } else {
                            s0.rewards[k]
                        },
                );
                assert forall|k: (AccountId, CountryId)| #[trigger] visited(entries, i + 1, k) == (visited(
                    entries,
                    i as int,
                    k,
                ) || k == key) by {
                    if k == key {
                        assert(entries[i as int].0 == k);
                    }
                    if visited(entries, i + 1, k) && k != key {
                        let j = choose|j: int| 0 <= j < i + 1 && #[trigger] entries[j].0 == k;
                        assert(j < i);
                    }
                }
                assert(self@.rewards =~= target);
            }
            i = i + 1;
        }
        proof {
            assert forall|k: (AccountId, CountryId)| #[trigger] visited(entries, n as int, k) == s0.staked.dom().contains(k) by {
                if s0.staked.dom().contains(k) {
                    let j = choose|j: int| 0 <= j < entries.len() && #[trigger] entries[j].0 == k;
                    assert(visited(entries, n as int, k));
                }
                if visited(entries, n as int, k) {
                    let j = choose|j: int| 0 <= j < n && #[trigger] entries[j].0 == k;
                }
            }
            assert(self@.rewards =~= calculate_era_rewards(s0).rewards);
        }
        self.deposit_event(Event::EraPayout(self.current_era));
        Ok(())
    }

    /// End-of-block bookkeeping for block `now`: era changes and payouts,
    /// then release of the unstaked funds whose lock period ends at `now`.
    pub fn on_finalize(&mut self, now: BlockNumber)
        requires
            old(self).wf(),
            era_step_safe(old(self)@, now),
        ensures
            final(self).wf(),
            finalized(old(self)@, now, final(self)@),
    {
        if now == 1 {
            let _ = self.start_new_era();
        }
        if self.era_information.contains_key(&(now, self.current_era)) {
            let _ = self.calculate_era_rewards_onchain();
            let _ = self.start_new_era();
        }
        let ghost s1 = self@;
        assert(s1 == era_step(old(self)@, now));
        let raw: Vec<(AccountId, Balance)> = self.unstake_requests.drain_prefix(&now);
        let ghost requests = s1.unstake_requests;
        let drained: Vec<(AccountId, Balance)> = sort_by_account_key(&raw);
        proof {
            assert forall|j: int| 0 <= j < drained@.len() implies {
                &&& requests.dom().contains((now, #[trigger] drained@[j].0))
                &&& requests[(now, drained@[j].0)] == drained@[j].1
            } by {
                reveal(from_prefix);
                let m = choose|m: int| #![trigger raw@[m]] 0 <= m < raw@.len() && raw@[m] == drained@[j];
            }
            assert forall|j: int, l: int|
                0 <= j < drained@.len() && 0 <= l < drained@.len() && j != l
                    implies #[trigger] drained@[j].0 != #[trigger] drained@[l].0 by {
                reveal(sorted_by_account_key);
                if drained@[j].0 == drained@[l].0 {
                    lemma_key_less_irreflexive(account_key(drained@[j].0));
                    if j < l {
                        assert(key_less(account_key(drained@[j].0), account_key(drained@[l].0)));
                    } else {
                        assert(key_less(account_key(drained@[l].0), account_key(drained@[j].0)));
                    }
                }
            }
            assert forall|who: AccountId| #[trigger] requests.dom().contains((now, who)) implies exists|j: int|
                0 <= j < drained@.len() && #[trigger] drained@[j].0 == who by {
                reveal(covers_prefix);
                let m = choose|m: int| 0 <= m < raw@.len() && #[trigger] raw@[m].0 == who;
                assert(raw@[m] == raw@[m]);
                let j = choose|j: int| #![trigger drained@[j]] 0 <= j < drained@.len() && drained@[j] == raw@[m];
                assert(drained@[j].0 == who);
            }
        }
        let n: usize = drained.len();
        let mut i: usize = 0;
        while i < n
            invariant
                self.wf(),
                n == drained@.len(),
                i <= n,
                forall|j: int|
                    0 <= j < drained@.len() ==> {
                        &&& requests.dom().contains((now, #[trigger] drained@[j].0))
                        &&& requests[(now, drained@[j].0)] == drained@[j].1
                    },
                forall|j: int, l: int|
                    0 <= j < drained@.len() && 0 <= l < drained@.len() && j != l
                        ==> #[trigger] drained@[j].0 != #[trigger] drained@[l].0,
                self@ == (StakingState {
                    balances: self@.balances,
                    events: self@.events,
                    unstake_requests: without_prefix(requests, now),
                    ..s1
                }),
                self@.balances == Map::new(
                    |who: AccountId| s1.balances.dom().contains(who),
                    |who: AccountId|
                        if released(drained@, i as int, who) {
                            unreserve_outcome(s1.balances, who, requests[(now, who)]).0[who]
                        } else {
                            s1.balances[who]
                        },
                ),
                self@.events == s1.events + Seq::new(
                    i as nat,
                    |j: int| Event::UnstakeRequestCompleted(drained@[j].0, drained@[j].1),
                ),
            decreases n - i,
        {
            let (account_id, unstaked_funds) = drained[i];
            assert(!released(drained@, i as int, account_id)) by {
                if released(drained@, i as int, account_id) {
                    let j = choose|j: int| 0 <= j < i && #[trigger] drained@[j].0 == account_id;
                    assert(drained@[j].0 != drained@[i as int].0);
                }
            }
            let ghost before = self@.balances;
            let _ = self.balances.unreserve(account_id, unstaked_funds);
            proof {
                assert(unstaked_funds == requests[(now, account_id)]);
                let target = Map::new(
                    |who: AccountId| s1.balances.dom().contains(who),
                    |who: AccountId|
                        if released(drained@, i + 1, who) {
                            unreserve_outcome(s1.balances, who, requests[(now, who)]).0[who]
                        } else {
                            s1.balances[who]
                        },
                );
                assert forall|who: AccountId| #[trigger] released(drained@, i + 1, who) == (released(
                    drained@,
                    i as int,
                    who,
                ) || who == account_id) by {
                    if who == account_id {
                        assert(drained@[i as int].0 == who);
                    }
                    if released(drained@, i + 1, who) && who != account_id {
                        let j = choose|j: int| 0 <= j < i + 1 && #[trigger] drained@[j].0 == who;
                        assert(j < i);
                    }
                }
                assert(self@.balances =~= target);
            }
            self.deposit_event(Event::UnstakeRequestCompleted(account_id, unstaked_funds));
            proof {
                assert(self@.events =~= s1.events + Seq::new(
                    (i + 1) as nat,
                    |j: int| Event::UnstakeRequestCompleted(drained@[j].0, drained@[j].1),
                ));
            }
            i = i + 1;
        }
        proof {
            assert forall|who: AccountId| #[trigger] released(drained@, n as int, who) == requests.dom().contains((now, who)) by {
                if requests.dom().contains((now, who)) {
                    let j = choose|j: int| 0 <= j < drained@.len() && #[trigger] drained@[j].0 == who;
                    assert(released(drained@, n as int, who));
                }
                if released(drained@, n as int, who) {
                    let j = choose|j: int| 0 <= j < n && #[trigger] drained@[j].0 == who;
                }
            }
            assert(self@.balances =~= release_unstaked(s1.balances, requests, now));
            let completed = self@.events.skip(s1.events.len() as int);
            assert(self@.events.subrange(0, s1.events.len() as int) =~= s1.events);
            assert(completed =~= Seq::new(
                n as nat,
                |j: int| Event::UnstakeRequestCompleted(drained@[j].0, drained@[j].1),
            ));
            assert forall|i: int| 0 <= i < completed.len() implies match #[trigger] completed[i] {
                Event::UnstakeRequestCompleted(who, funds) => requests.dom().contains((now, who))
                    && requests[(now, who)] == funds,
                _ => false,
            } by {
                assert(completed[i] == Event::UnstakeRequestCompleted(drained@[i].0, drained@[i].1));
            }
            assert forall|who: AccountId| #[trigger] requests.dom().contains((now, who)) implies exists|i: int|
                0 <= i < completed.len() && #[trigger] completed[i] == Event::UnstakeRequestCompleted(
                    who,
                    requests[(now, who)],
                ) by {
                let j = choose|j: int| 0 <= j < n && #[trigger] drained@[j].0 == who;
                assert(completed[j] == Event::UnstakeRequestCompleted(who, requests[(now, who)]));
            }
            assert forall|i: int, j: int|
                0 <= i < completed.len() && 0 <= j < completed.len() && i != j implies #[trigger] completed[i]
                    != #[trigger] completed[j] by {
                assert(drained@[i].0 != drained@[j].0);
            }
            assert(reports_completed(completed, requests, now));
            assert forall|i: int, j: int| 0 <= i < j < completed.len() implies key_less(
                account_key(completed_account(#[trigger] completed[i])),
                account_key(completed_account(#[trigger] completed[j])),
            ) by {
                reveal(sorted_by_account_key);
                assert(completed_account(completed[i]) == drained@[i].0);
                assert(completed_account(completed[j]) == drained@[j].0);
            }
            assert(in_storage_order(completed));
        }
    }
}

} // verus!

use vstd::prelude::*;

use vstd::arithmetic::div_mod::{
    lemma_div_is_ordered, lemma_fundamental_div_mod, lemma_fundamental_div_mod_converse,
    lemma_mod_pos_bound,
};
use vstd::set_lib::lemma_len_subset;

use crate::balances::{
    account_of, deposit_outcome, is_alive, reserve_outcome, unreserve_outcome, AccountData,
};
use crate::model::{
    claim, era_step, finalized, is_run, next_block, next_era, payout_safe, reinvest,
    release_unstaked, stake, stake_fits, start_new_era, unstake, value_or_zero, StakingState,
};
use crate::storage::without_prefix;
use crate::types::{
    AccountId, Balance, BlockNumber, CountryId, DispatchError, EraIndex, Error, Event, Origin,
};

verus! {

/// Staking `balance` and then unstaking it again leaves the stake as it was
/// and every other stake untouched; the funds stay reserved, and a request
/// releases them once the lock period has passed.
pub proof fn stake_then_unstake_restores_stake(
    s: StakingState,
    who: AccountId,
    country: CountryId,
    balance: Balance,
)
    requires
        s.countries.contains(country),
        s.free_balance(who) >= balance,
        stake_fits(s, who, country, balance),
        s.reserved_balance(who) + balance <= u64::MAX,
        s.block_number + s.config.balance_lock_period <= u64::MAX,
    ensures
        ({
            let (s1, r1) = stake(s, Origin::Signed(who), country, balance);
            let (s2, r2) = unstake(s1, Origin::Signed(who), country, balance);
            &&& r1 is Ok
            &&& r2 is Ok
            &&& s2.staked_balance(who, country) == s.staked_balance(who, country)
            &&& forall|a: AccountId, c: CountryId|
                (a, c) != (who, country) ==> #[trigger] s2.staked_balance(a, c) == s.staked_balance(a, c)
            &&& s2.free_balance(who) == s.free_balance(who) - balance
            &&& s2.reserved_balance(who) == s.reserved_balance(who) + balance
            &&& s2.unstake_request((s.block_number + s.config.balance_lock_period) as u64, who)
                == balance
        }),
{
}

/// Staking only moves funds from free to reserved: no account's total
/// changes, and unstaking changes no funds at all.
pub proof fn staking_keeps_every_total(s: StakingState, origin: Origin, country: CountryId, balance: Balance)
    ensures
        forall|a: AccountId|
            #![trigger account_of(stake(s, origin, country, balance).0.balances, a)]
            account_of(stake(s, origin, country, balance).0.balances, a).free + account_of(
                stake(s, origin, country, balance).0.balances,
                a,
            ).reserved == account_of(s.balances, a).free + account_of(s.balances, a).reserved,
        unstake(s, origin, country, balance).0.balances == s.balances,
{
}

/// A call that is refused changes nothing.
pub proof fn refused_calls_change_nothing(s: StakingState, origin: Origin, country: CountryId, balance: Balance)
    ensures
        stake(s, origin, country, balance).1 is Err ==> stake(s, origin, country, balance).0 == s,
        unstake(s, origin, country, balance).1 is Err ==> unstake(s, origin, country, balance).0 == s,
        claim(s, origin, country).1 is Err ==> claim(s, origin, country).0 == s,
        reinvest(s, origin, country).1 is Err ==> reinvest(s, origin, country).0 == s,
{
}

/// Claiming is refused exactly when there is no reward; otherwise the reward
/// is cleared and, for a live account whose free funds do not overflow, paid
/// into its free funds; stakes and reserved funds stay as they were.
pub proof fn claim_pays_reward(s: StakingState, who: AccountId, country: CountryId)
    ensures
        ({
            let (t, r) = claim(s, Origin::Signed(who), country);
            &&& r is Err <==> s.account_reward(who, country) == 0
            &&& r is Ok ==> {
                &&& t.account_reward(who, country) == 0
                &&& t.staked == s.staked
                &&& t.reserved_balance(who) == s.reserved_balance(who)
                &&& t.events.last() == Event::StakingRewardClaimed(
                    who,
                    country,
                    s.account_reward(who, country),
                )
                &&& is_alive(account_of(s.balances, who)) && s.free_balance(who) + s.account_reward(
                    who,
                    country,
                ) <= u64::MAX ==> t.free_balance(who) == s.free_balance(who) + s.account_reward(
                    who,
                    country,
                )
            }
        }),
{
}

/// Reinvesting stakes the whole reward: for a live account whose funds do
/// not overflow, the stake grows by the reward, the reward is cleared, the
/// free funds stay as they were and the reserved funds grow by the reward.
pub proof fn reinvest_moves_reward_into_stake(s: StakingState, who: AccountId, country: CountryId)
    requires
        s.account_reward(who, country) > 0,
        is_alive(account_of(s.balances, who)),
        s.free_balance(who) + s.account_reward(who, country) <= u64::MAX,
        s.reserved_balance(who) + s.account_reward(who, country) <= u64::MAX,
        stake_fits(s, who, country, s.account_reward(who, country)),
    ensures
        ({
            let (t, r) = reinvest(s, Origin::Signed(who), country);
            let reward = s.account_reward(who, country);
            &&& r is Ok
            &&& t.staked_balance(who, country) == s.staked_balance(who, country) + reward
            &&& t.account_reward(who, country) == 0
            &&& t.free_balance(who) == s.free_balance(who)
            &&& t.reserved_balance(who) == s.reserved_balance(who) + reward
        }),
{
}

/// At the block where the current era ends, every stake earns its era
/// reward (stake divided by the reward multiplier), rewards without a stake
/// stay as they were, the next era starts and its end is recorded
/// `era_length` blocks later.
pub proof fn era_end_pays_every_stake(s: StakingState, now: BlockNumber)
    requires
        now != 1,
        s.era_info.contains((now, s.current_era)),
        payout_safe(s),
        next_era(s.current_era) != 1,
        s.block_number + s.config.era_length <= u64::MAX,
    ensures
        ({
            let t = era_step(s, now);
            &&& forall|k: (AccountId, CountryId)|
                #[trigger] s.staked.dom().contains(k) ==> t.rewards[k] == value_or_zero(s.rewards, k)
                    + s.staked[k] / (s.config.default_reward_multiplier as u64)
            &&& forall|k: (AccountId, CountryId)|
                !s.staked.dom().contains(k) ==> #[trigger] value_or_zero(t.rewards, k)
                    == value_or_zero(s.rewards, k)
            &&& t.staked == s.staked
            &&& t.current_era == next_era(s.current_era)
            &&& t.era_info.contains(
                ((s.block_number + s.config.era_length) as u64, next_era(s.current_era)),
            )
            &&& t.events.last() == Event::EraPayout(s.current_era)
        }),
{
}

/// Outside the blocks where an era starts or ends, the era bookkeeping
/// changes nothing.
pub proof fn era_step_idle(s: StakingState, now: BlockNumber)
    requires
        now != 1,
        !s.era_info.contains((now, s.current_era)),
    ensures
        era_step(s, now) == s,
{
}

/// The era counter never goes back, and one block advances it by at most two.
pub proof fn era_never_decreases(s: StakingState, now: BlockNumber)
    ensures
        s.current_era <= era_step(s, now).current_era,
        era_step(s, now).current_era <= s.current_era + 2,
{
}

/// From genesis, block 1 starts era 1, whose end is recorded at block
/// `era_length`.
pub proof fn first_era_starts_at_block_one(s: StakingState)
    requires
        s.current_era == 0,
        s.config.era_length != 1,
        !s.era_info.contains((1u64, 1u32)),
    ensures
        era_step(s, 1).current_era == 1,
        era_step(s, 1).era_info.contains((s.config.era_length, 1u32)),
{
    assert(start_new_era(s).era_info.contains((s.config.era_length, 1u32)));
}

/// Staking `x` and then `y` leaves the stakes and the funds as staking
/// `x + y` at once does.
pub proof fn stake_twice_is_stake_of_sum(
    s: StakingState,
    who: AccountId,
    country: CountryId,
    x: Balance,
    y: Balance,
)
    requires
        s.countries.contains(country),
        x + y <= u64::MAX,
        s.free_balance(who) >= x + y,
        stake_fits(s, who, country, (x + y) as u64),
        s.reserved_balance(who) + x + y <= u64::MAX,
    ensures
        ({
            let (s1, r1) = stake(s, Origin::Signed(who), country, x);
            let (s2, r2) = stake(s1, Origin::Signed(who), country, y);
            let (t, r) = stake(s, Origin::Signed(who), country, (x + y) as u64);
            &&& r1 is Ok
            &&& r2 is Ok
            &&& r is Ok
            &&& s2.staked == t.staked
            &&& s2.balances == t.balances
        }),
{
    let (s1, r1) = stake(s, Origin::Signed(who), country, x);
    let (s2, r2) = stake(s1, Origin::Signed(who), country, y);
    let (t, r) = stake(s, Origin::Signed(who), country, (x + y) as u64);
    assert(s2.staked =~= t.staked);
    assert(s2.balances =~= t.balances);
}

/// The era bookkeeping touches neither funds, stakes nor unstake requests.
proof fn lemma_era_step_keeps(s: StakingState, now: BlockNumber)
    ensures
        era_step(s, now).balances == s.balances,
        era_step(s, now).unstake_requests == s.unstake_requests,
        era_step(s, now).staked == s.staked,
        era_step(s, now).config == s.config,
        era_step(s, now).block_number == s.block_number,
{
}

/// What one block does to funds, stakes and unstake requests.
proof fn lemma_next_block(s: StakingState, t: StakingState)
    requires
        next_block(s, t),
    ensures
        t.balances == release_unstaked(s.balances, s.unstake_requests, s.block_number),
        t.unstake_requests == without_prefix(s.unstake_requests, s.block_number),
        t.staked == s.staked,
        t.config == s.config,
{
    lemma_era_step_keeps(s, s.block_number);
}

/// Over the blocks before `at`, a run keeps the request of `who` at `at` and
/// the funds of `who`, when `who` has no other request maturing meanwhile.
proof fn lemma_run_keeps_request(run: Seq<StakingState>, who: AccountId, at: BlockNumber, x: Balance, i: int)
    requires
        is_run(run),
        0 <= i < run.len(),
        run[0].block_number + i <= at,
        run[0].unstake_requests.dom().contains((at, who)),
        run[0].unstake_requests[(at, who)] == x,
        forall|n: BlockNumber|
            run[0].block_number <= n < at ==> !#[trigger] run[0].unstake_requests.dom().contains((n, who)),
    ensures
        run[i].block_number == run[0].block_number + i,
        run[i].unstake_requests.dom().contains((at, who)),
        run[i].unstake_requests[(at, who)] == x,
        forall|k: (BlockNumber, AccountId)|
            #[trigger] run[i].unstake_requests.dom().contains(k) ==> run[0].unstake_requests.dom().contains(k),
        account_of(run[i].balances, who) == account_of(run[0].balances, who),
        run[i].staked == run[0].staked,
        run[i].config == run[0].config,
    decreases i,
{
    if i > 0 {
        lemma_run_keeps_request(run, who, at, x, i - 1);
        let p = run[i - 1];
        let q = run[i];
        assert(next_block(run[i - 1], run[i]));
        lemma_next_block(p, q);
        let now = p.block_number;
        assert(!p.unstake_requests.dom().contains((now, who))) by {
            if p.unstake_requests.dom().contains((now, who)) {
                assert(run[0].unstake_requests.dom().contains((now, who)));
            }
        }
        if p.balances.dom().contains(who) {
            assert(q.balances[who] == p.balances[who]);
        }
    }
}

/// Funds unstaked with a release at block `at` stay reserved through every
/// block before `at`, and the end of block `at` moves them back to the free
/// funds and reports the completion (when `who` has no other request
/// maturing in between).
pub proof fn unstaked_funds_stay_reserved_until_released(run: Seq<StakingState>, who: AccountId, x: Balance)
    requires
        is_run(run),
        run[0].block_number + run[0].config.balance_lock_period <= u64::MAX,
        run.len() >= run[0].config.balance_lock_period + 2,
        run[0].unstake_requests.dom().contains(
            ((run[0].block_number + run[0].config.balance_lock_period) as u64, who),
        ),
        run[0].unstake_requests[((run[0].block_number + run[0].config.balance_lock_period) as u64, who)]
            == x,
        forall|n: BlockNumber|
            run[0].block_number <= n < run[0].block_number + run[0].config.balance_lock_period
                ==> !#[trigger] run[0].unstake_requests.dom().contains((n, who)),
    ensures
        ({
            let at = (run[0].block_number + run[0].config.balance_lock_period) as u64;
            let lock = run[0].config.balance_lock_period as int;
            let d = account_of(run[0].balances, who);
            let released = run[lock + 1];
            &&& forall|i: int|
                0 <= i <= lock ==> account_of(#[trigger] run[i].balances, who) == d
                    && run[i].unstake_request(at, who) == x
            &&& account_of(released.balances, who) == account_of(
                unreserve_outcome(run[0].balances, who, x).0,
                who,
            )
            &&& d.reserved >= x && d.free + x <= u64::MAX ==> {
                &&& released.free_balance(who) == d.free + x
                &&& released.reserved_balance(who) == d.reserved - x
            }
            &&& !released.unstake_requests.dom().contains((at, who))
            &&& exists|j: int|
                run[lock].events.len() <= j < released.events.len() && #[trigger] released.events[j]
                    == Event::UnstakeRequestCompleted(who, x)
        }),
{
    let at = (run[0].block_number + run[0].config.balance_lock_period) as u64;
    let lock = run[0].config.balance_lock_period as int;
    assert forall|i: int| 0 <= i <= lock implies account_of(#[trigger] run[i].balances, who)
        == account_of(run[0].balances, who) && run[i].unstake_request(at, who) == x by {
        lemma_run_keeps_request(run, who, at, x, i);
    }
    lemma_run_keeps_request(run, who, at, x, lock);
    let p = run[lock];
    let q = run[lock + 1];
    assert(next_block(run[lock], run[lock + 1]));
    lemma_next_block(p, q);
    let mid = StakingState { block_number: p.block_number, ..q };
    let e = era_step(p, p.block_number);
    lemma_era_step_keeps(p, p.block_number);
    assert(p.block_number == at);
    if p.balances.dom().contains(who) {
        assert(q.balances[who] == unreserve_outcome(p.balances, who, x).0[who]);
    }
    let completed = mid.events.skip(e.events.len() as int);
    let j = choose|j: int|
        0 <= j < completed.len() && #[trigger] completed[j] == Event::UnstakeRequestCompleted(
            who,
            e.unstake_requests[(at, who)],
        );
    assert(q.events[e.events.len() + j] == completed[j]);
}

/// Staking `x`, unstaking it in the same block and letting the lock period
/// pass gives back the stake, free funds and reserved funds the account had
/// (when the reservation fits and no other request of the account matures
/// meanwhile).
pub proof fn stake_unstake_round_trip(
    s: StakingState,
    who: AccountId,
    country: CountryId,
    x: Balance,
    run: Seq<StakingState>,
)
    requires
        s.countries.contains(country),
        s.free_balance(who) >= x,
        stake_fits(s, who, country, x),
        s.reserved_balance(who) + x <= u64::MAX,
        s.block_number + s.config.balance_lock_period <= u64::MAX,
        forall|n: BlockNumber|
            s.block_number <= n <= s.block_number + s.config.balance_lock_period
                ==> !#[trigger] s.unstake_requests.dom().contains((n, who)),
        is_run(run),
        run[0] == unstake(stake(s, Origin::Signed(who), country, x).0, Origin::Signed(who), country, x).0,
        run.len() >= s.config.balance_lock_period + 2,
    ensures
        ({
            let t = run[s.config.balance_lock_period + 1];
            &&& t.staked_balance(who, country) == s.staked_balance(who, country)
            &&& t.free_balance(who) == s.free_balance(who)
            &&& t.reserved_balance(who) == s.reserved_balance(who)
        }),
{
    let lock = s.config.balance_lock_period as int;
    stake_then_unstake_restores_stake(s, who, country, x);
    let s2 = run[0];
    let at = (s.block_number + s.config.balance_lock_period) as u64;
    assert forall|n: BlockNumber|
        s2.block_number <= n < s2.block_number + s2.config.balance_lock_period implies !#[trigger] s2.unstake_requests.dom().contains((n, who)) by {
        assert(n != at);
    }
    unstaked_funds_stay_reserved_until_released(run, who, x);
    lemma_run_keeps_request(run, who, at, x, lock);
    let p = run[lock];
    let q = run[lock + 1];
    assert(next_block(run[lock], run[lock + 1]));
    lemma_next_block(p, q);
}

proof fn lemma_run_step(run: Seq<StakingState>, i: int)
    requires
        is_run(run),
        0 <= i < run.len() - 1,
    ensures
        next_block(run[i], run[i + 1]),
{
}

/// The era ends recorded once eras `1..=era` have started: era `k` ends at
/// block `k * era_length`.
pub open spec fn era_ends_through(era: EraIndex, era_length: BlockNumber) -> Set<(BlockNumber, EraIndex)> {
    Set::new(|p: (BlockNumber, EraIndex)| 1 <= p.1 <= era && p.0 == p.1 * era_length)
}

/// The eras paid out by the `EraPayout` events among `events`, in order.
pub open spec fn era_payouts(events: Seq<Event>) -> Seq<EraIndex>
    decreases events.len(),
{
    if events.len() == 0 {
        Seq::empty()
    } else {
        era_payouts(events.drop_last()) + match events.last() {
            Event::EraPayout(era) => seq![era],
            _ => Seq::empty(),
        }
    }
}

proof fn lemma_era_payouts_append(a: Seq<Event>, b: Seq<Event>)
    ensures
        era_payouts(a + b) == era_payouts(a) + era_payouts(b),
    decreases b.len(),
{
    if b.len() == 0 {
        assert(a + b =~= a);
        assert(era_payouts(a) + era_payouts(b) =~= era_payouts(a));
    } else {
        lemma_era_payouts_append(a, b.drop_last());
        assert((a + b).drop_last() =~= a + b.drop_last());
        assert((a + b).last() == b.last());
        assert(era_payouts(a) + era_payouts(b.drop_last()) + match b.last() {
            Event::EraPayout(era) => seq![era],
            _ => Seq::<EraIndex>::empty(),
        } =~= era_payouts(a) + era_payouts(b));
    }
}

proof fn lemma_era_payouts_none(events: Seq<Event>)
    requires
        forall|i: int| 0 <= i < events.len() ==> !(#[trigger] events[i] is EraPayout),
    ensures
        era_payouts(events) == Seq::<EraIndex>::empty(),
    decreases events.len(),
{
    if events.len() > 0 {
        lemma_era_payouts_none(events.drop_last());
        assert(!(events[events.len() - 1] is EraPayout));
        assert(era_payouts(events) =~= Seq::<EraIndex>::empty());
    }
}

proof fn lemma_div_step(i: int, l: int)
    requires
        i >= 0,
        l > 0,
    ensures
        (i + 1) % l == 0 ==> (i + 1) / l == i / l + 1 && i + 1 == (i / l + 1) * l,
        (i + 1) % l != 0 ==> (i + 1) / l == i / l && i + 1 != (i / l + 1) * l,
{
    let q = i / l;
    let r = i % l;
    lemma_fundamental_div_mod(i, l);
    lemma_mod_pos_bound(i, l);
    assert((q + 1) * l == q * l + l) by (nonlinear_arith);
    assert(l * q == q * l) by (nonlinear_arith);
    if r + 1 < l {
        lemma_fundamental_div_mod_converse(i + 1, l, q, r + 1);
    } else {
        lemma_fundamental_div_mod_converse(i + 1, l, q + 1, 0);
    }
}

/// One block of the era bookkeeping from genesis: after `i + 1` blocks the
/// era is `1 + (i + 1) / era_length`, and block `i + 1` pays out an era
/// exactly when it is a multiple of `era_length`.
proof fn lemma_era_block(s: StakingState, t: StakingState, i: int)
    requires
        next_block(s, t),
        i >= 0,
        s.block_number == 1 + i,
        s.config.era_length > 0,
        s.current_era == (if i == 0 {
            0
        } else {
            1 + i / (s.config.era_length as int)
        }),
        s.era_info == era_ends_through(s.current_era, s.config.era_length),
        2 + (i + 1) / (s.config.era_length as int) < u32::MAX,
        i + 1 + s.config.era_length <= u64::MAX,
    ensures
        t.current_era == 1 + (i + 1) / (s.config.era_length as int),
        t.era_info == era_ends_through(t.current_era, s.config.era_length),
        t.config == s.config,
        era_payouts(t.events) == era_payouts(s.events) + (if (i + 1) % (s.config.era_length as int)
            == 0 {
            seq![((i + 1) / (s.config.era_length as int)) as EraIndex]
        } else {
            Seq::<EraIndex>::empty()
        }),
{
    let l = s.config.era_length as int;
    let now = s.block_number;
    lemma_div_step(i, l);
    lemma_era_step_keeps(s, now);
    let s1 = if now == 1 {
        start_new_era(s)
    } else {
        s
    };
    if now == 1 {
        assert(s1.era_info =~= era_ends_through(1, s.config.era_length)) by {
            assert forall|p: (BlockNumber, EraIndex)| #[trigger] s1.era_info.contains(p)
                == era_ends_through(1, s.config.era_length).contains(p) by {
                if p.1 == 1 && p.0 == p.1 * s.config.era_length {
                    assert(p.0 == s.config.era_length);
                }
            }
        }
    }
    assert(s1.current_era == (if i == 0 { 1 } else { 1 + i / l }));
    assert(0int / l == 0);
    let cur = s1.current_era;
    let e = era_step(s, now);
    // The current era ends at this block exactly when the block is a multiple of the era length.
    assert(s1.era_info.contains((now, cur)) == ((i + 1) % l == 0)) by {
        if i == 0 {
            assert(1int % l == 0 <==> l == 1) by {
                if l == 1 {
                } else {
                    lemma_fundamental_div_mod_converse(1, l, 0, 1);
                }
            }
            assert(1int * s.config.era_length == s.config.era_length);
        } else {
            assert(cur == i / l + 1);
            assert(cur * s.config.era_length == (i / l + 1) * l);
        }
    }
    if s1.era_info.contains((now, cur)) {
        assert(e.current_era == cur + 1);
        assert(e.era_info =~= era_ends_through((cur + 1) as u32, s.config.era_length)) by {
            assert(cur * l == now);
            assert((cur + 1) * l == now + l) by (nonlinear_arith)
                requires
                    cur * l == now,
            ;
            assert forall|p: (BlockNumber, EraIndex)| #[trigger] e.era_info.contains(p)
                == era_ends_through((cur + 1) as u32, s.config.era_length).contains(p) by {
                if p.1 == cur + 1 && p.0 == p.1 * s.config.era_length {
                    assert(p.0 == now + l);
                }
            }
        }
        assert(e.events == s1.events.push(Event::EraPayout(cur)));
        lemma_era_payouts_append(s1.events, seq![Event::EraPayout(cur)]);
        assert(s1.events.push(Event::EraPayout(cur)) =~= s1.events + seq![Event::EraPayout(cur)]);
        assert(era_payouts(seq![Event::EraPayout(cur)]) =~= seq![cur]) by {
            let one = seq![Event::EraPayout(cur)];
            assert(one.drop_last() =~= Seq::<Event>::empty());
            assert(one.last() == Event::EraPayout(cur));
            assert(era_payouts(one.drop_last()) == Seq::<EraIndex>::empty());
        }
    } else {
        assert(e == s1);
    }
    assert(s1.events == s.events);
    let mid = StakingState { block_number: s.block_number, ..t };
    assert(finalized(s, now, mid));
    let completed = mid.events.skip(e.events.len() as int);
    assert(mid.events =~= e.events + completed);
    assert forall|k: int| 0 <= k < completed.len() implies !(#[trigger] completed[k] is EraPayout) by {
        assert(match completed[k] {
            Event::UnstakeRequestCompleted(who, funds) => true,
            _ => false,
        });
    }
    lemma_era_payouts_none(completed);
    lemma_era_payouts_append(e.events, completed);
}

/// The eras paid out after `i` blocks: `1, 2, ..., i / era_length`.
pub open spec fn paid_eras(i: int, era_length: BlockNumber) -> Seq<EraIndex> {
    Seq::new((i / (era_length as int)) as nat, |k: int| (k + 1) as EraIndex)
}

#[verifier::spinoff_prover]
#[verifier::rlimit(50)]
proof fn lemma_eras_upto(run: Seq<StakingState>, m: int, i: int)
    requires
        is_run(run),
        0 <= i <= m < run.len(),
        run[0].block_number == 1,
        run[0].current_era == 0,
        run[0].era_info == Set::<(BlockNumber, EraIndex)>::empty(),
        run[0].config.era_length > 0,
        2 + m / (run[0].config.era_length as int) < u32::MAX,
        m + run[0].config.era_length <= u64::MAX,
    ensures
        run[i].block_number == 1 + i,
        run[i].config == run[0].config,
        run[i].current_era == (if i == 0 {
            0
        } else {
            1 + i / (run[0].config.era_length as int)
        }),
        run[i].era_info == era_ends_through(run[i].current_era, run[0].config.era_length),
        era_payouts(run[i].events) == era_payouts(run[0].events) + paid_eras(i, run[0].config.era_length),
        i > 0 ==> era_payouts(run[i].events) == era_payouts(run[i - 1].events) + (if i % (
        run[0].config.era_length as int) == 0 {
            seq![(i / (run[0].config.era_length as int)) as EraIndex]
        } else {
            Seq::<EraIndex>::empty()
        }),
    decreases i,
{
    let l = run[0].config.era_length as int;
    if i == 0 {
        assert(run[0].era_info =~= era_ends_through(0, run[0].config.era_length));
        assert(0int / l == 0);
        assert(paid_eras(0, run[0].config.era_length) =~= Seq::<EraIndex>::empty());
        assert(era_payouts(run[0].events) + paid_eras(0, run[0].config.era_length) =~= era_payouts(
            run[0].events,
        ));
    } else {
        lemma_eras_upto(run, m, i - 1);
        let p = run[i - 1];
        let q = run[i];
        lemma_run_step(run, i - 1);
        lemma_next_block(p, q);
        lemma_div_is_ordered(i, m, l);
        lemma_era_block(p, q, i - 1);
        lemma_paid_eras_step(i, run[0].config.era_length);
        let base = era_payouts(run[0].events);
        let step = if i % l == 0 {
            seq![(i / l) as EraIndex]
        } else {
            Seq::<EraIndex>::empty()
        };
        assert(base + paid_eras(i - 1, run[0].config.era_length) + step =~= base + paid_eras(
            i,
            run[0].config.era_length,
        ));
    }
}

proof fn lemma_paid_eras_step(i: int, era_length: BlockNumber)
    requires
        i >= 1,
        era_length > 0,
    ensures
        paid_eras(i, era_length) == paid_eras(i - 1, era_length) + (if i % (era_length as int) == 0 {
            seq![(i / (era_length as int)) as EraIndex]
        } else {
            Seq::<EraIndex>::empty()
        }),
{
    let l = era_length as int;
    lemma_div_step(i - 1, l);
    if i % l == 0 {
        assert(paid_eras(i, era_length) =~= paid_eras(i - 1, era_length) + seq![(i / l) as EraIndex]);
    } else {
        assert(paid_eras(i, era_length) =~= paid_eras(i - 1, era_length) + Seq::<EraIndex>::empty());
    }
}

/// From genesis, after the first `m` blocks (`m >= 1`) the era is
/// `1 + m / era_length`; era `k` ends at block `k * era_length`, so the
/// current era ends at `(m / era_length + 1) * era_length`; eras
/// `1, ..., m / era_length` have been paid out in order, once each, era `k`
/// at the end of block `k * era_length`.
pub proof fn eras_from_genesis(run: Seq<StakingState>, m: int)
    requires
        is_run(run),
        1 <= m < run.len(),
        run[0].block_number == 1,
        run[0].current_era == 0,
        run[0].era_info == Set::<(BlockNumber, EraIndex)>::empty(),
        run[0].config.era_length > 0,
        2 + m / (run[0].config.era_length as int) < u32::MAX,
        m + run[0].config.era_length <= u64::MAX,
    ensures
        ({
            let l = run[0].config.era_length as int;
            &&& run[m].current_era == 1 + m / l
            &&& run[m].era_info == era_ends_through(run[m].current_era, run[0].config.era_length)
            &&& run[m].era_info.contains((((m / l + 1) * l) as BlockNumber, run[m].current_era))
            &&& era_payouts(run[m].events) == era_payouts(run[0].events) + paid_eras(
                m,
                run[0].config.era_length,
            )
            &&& forall|n: int|
                1 <= n <= m ==> era_payouts(#[trigger] run[n].events) == era_payouts(run[n - 1].events) + (
                if n % l == 0 {
                    seq![(n / l) as EraIndex]
                } else {
                    Seq::<EraIndex>::empty()
                })
        }),
{
    let l = run[0].config.era_length as int;
    lemma_eras_upto(run, m, m);
    assert forall|n: int| 1 <= n <= m implies era_payouts(#[trigger] run[n].events) == era_payouts(
        run[n - 1].events,
    ) + (if n % l == 0 {
        seq![(n / l) as EraIndex]
    } else {
        Seq::<EraIndex>::empty()
    }) by {
        lemma_eras_upto(run, m, n);
    }
    let cur = run[m].current_era;
    let q = m / l;
    assert(q * l <= m) by {
        lemma_fundamental_div_mod(m, l);
        lemma_mod_pos_bound(m, l);
        assert(l * q == q * l) by (nonlinear_arith);
    }
    assert((q + 1) * l <= m + l) by (nonlinear_arith)
        requires
            q * l <= m,
    {
    }
    assert(cur == q + 1);
    let end = ((q + 1) * l) as BlockNumber;
    assert(end == (q + 1) * l);
    assert(end == cur * run[0].config.era_length);
    assert(era_ends_through(cur, run[0].config.era_length).contains((end, cur)));
}

/// The sum of the values of `m` over the keys in `keys` (zero where `m` has
/// no value).
pub open spec fn sum_over<K>(m: Map<K, Balance>, keys: Set<K>) -> int
    decreases keys.len(),
{
    if keys.finite() && keys.len() > 0 {
        let k = keys.choose();
        value_or_zero(m, k) + sum_over(m, keys.remove(k))
    } else {
        0
    }
}

proof fn lemma_sum_over_remove<K>(m: Map<K, Balance>, keys: Set<K>, k0: K)
    requires
        keys.finite(),
        keys.contains(k0),
    ensures
        sum_over(m, keys) == value_or_zero(m, k0) + sum_over(m, keys.remove(k0)),
    decreases keys.len(),
{
    let k = keys.choose();
    if k != k0 {
        lemma_sum_over_remove(m, keys.remove(k), k0);
        lemma_sum_over_remove(m, keys.remove(k0), k);
        assert(keys.remove(k).remove(k0) =~= keys.remove(k0).remove(k));
    }
}

proof fn lemma_sum_over_agree<K>(m1: Map<K, Balance>, m2: Map<K, Balance>, keys: Set<K>)
    requires
        forall|k: K| #[trigger] keys.contains(k) ==> value_or_zero(m1, k) == value_or_zero(m2, k),
    ensures
        sum_over(m1, keys) == sum_over(m2, keys),
    decreases keys.len(),
{
    if keys.finite() && keys.len() > 0 {
        let k = keys.choose();
        lemma_sum_over_agree(m1, m2, keys.remove(k));
    }
}

/// The keys of `who`'s stakes.
pub open spec fn stake_keys(s: StakingState, who: AccountId) -> Set<(AccountId, CountryId)> {
    Set::new(|k: (AccountId, CountryId)| s.staked.dom().contains(k) && k.0 == who)
}

/// The keys of `who`'s pending unstake requests.
pub open spec fn request_keys(s: StakingState, who: AccountId) -> Set<(BlockNumber, AccountId)> {
    Set::new(|k: (BlockNumber, AccountId)| s.unstake_requests.dom().contains(k) && k.1 == who)
}

/// The reserved funds of `who` are exactly its stakes plus its pending
/// unstake requests.
pub open spec fn reserve_covers_stakes(s: StakingState, who: AccountId) -> bool {
    s.reserved_balance(who) == sum_over(s.staked, stake_keys(s, who)) + sum_over(
        s.unstake_requests,
        request_keys(s, who),
    )
}

/// Unstaking keeps every account's reserved funds equal to its stakes plus
/// its pending requests, whether it succeeds or not: the amount moves from
/// the stake to a new request and stays reserved (when the signer has no
/// request at the release block yet).
pub proof fn unstake_keeps_reserve_covering_stakes(
    s: StakingState,
    who: AccountId,
    country: CountryId,
    x: Balance,
    other: AccountId,
)
    requires
        s.staked.dom().finite(),
        s.unstake_requests.dom().finite(),
        s.block_number + s.config.balance_lock_period <= u64::MAX,
        !s.unstake_requests.dom().contains(
            ((s.block_number + s.config.balance_lock_period) as u64, who),
        ),
        reserve_covers_stakes(s, other),
    ensures
        reserve_covers_stakes(unstake(s, Origin::Signed(who), country, x).0, other),
{
    let (t, r) = unstake(s, Origin::Signed(who), country, x);
    if r is Ok {
        let k = (who, country);
        let end = (s.block_number + s.config.balance_lock_period) as u64;
        let old = s.staked_balance(who, country);
        lemma_len_subset(stake_keys(s, other), s.staked.dom());
        lemma_len_subset(request_keys(s, other), s.unstake_requests.dom());
        if other != who {
            assert(stake_keys(t, other) =~= stake_keys(s, other));
            assert(request_keys(t, other) =~= request_keys(s, other));
            lemma_sum_over_agree(t.staked, s.staked, stake_keys(s, other));
            lemma_sum_over_agree(t.unstake_requests, s.unstake_requests, request_keys(s, other));
        } else {
            let sk = stake_keys(s, who);
            let rk = request_keys(s, who);
            // The request side grows by the new request.
            assert(request_keys(t, who) =~= rk.insert((end, who)));
            lemma_len_subset(rk.insert((end, who)), t.unstake_requests.dom());
            lemma_sum_over_remove(t.unstake_requests, rk.insert((end, who)), (end, who));
            assert(rk.insert((end, who)).remove((end, who)) =~= rk);
            lemma_sum_over_agree(t.unstake_requests, s.unstake_requests, rk);
            // The stake side shrinks by the unstaked amount.
            if old != x {
                assert(sk.contains(k));
                assert(stake_keys(t, who) =~= sk);
                lemma_sum_over_remove(s.staked, sk, k);
                lemma_sum_over_remove(t.staked, sk, k);
                lemma_sum_over_agree(t.staked, s.staked, sk.remove(k));
            } else if sk.contains(k) {
                assert(stake_keys(t, who) =~= sk.remove(k));
                lemma_sum_over_remove(s.staked, sk, k);
                lemma_sum_over_agree(t.staked, s.staked, sk.remove(k));
            } else {
                assert(stake_keys(t, who) =~= sk);
                lemma_sum_over_agree(t.staked, s.staked, sk);
            }
        }
    }
}

/// Calls that are not signed are refused with `BadOrigin` and change
/// nothing.
pub proof fn unsigned_calls_are_refused(s: StakingState, origin: Origin, country: CountryId, balance: Balance)
    requires
        !(origin is Signed),
    ensures
        stake(s, origin, country, balance) == (s, Err::<(), DispatchError>(DispatchError::BadOrigin)),
        unstake(s, origin, country, balance) == (s, Err::<(), DispatchError>(DispatchError::BadOrigin)),
        claim(s, origin, country) == (s, Err::<(), DispatchError>(DispatchError::BadOrigin)),
        reinvest(s, origin, country) == (s, Err::<(), DispatchError>(DispatchError::BadOrigin)),
{
}

/// Staking on a country that is not registered is refused with
/// `CountryDoesNotExist`, whatever other countries exist; staking more than
/// the free funds is refused with `InsufficientFreeBalance`; both change
/// nothing. An accepted stake was on a registered country and within the free
/// funds: it adds exactly the amount to the signer's stake on that country,
/// moves it from free to reserved funds (when the reserved funds do not
/// overflow), and touches no other stake, no other account, no reward, no
/// request and no era.
pub proof fn stake_law(s: StakingState, who: AccountId, country: CountryId, balance: Balance)
    requires
        stake_fits(s, who, country, balance),
    ensures
        ({
            let (t, r) = stake(s, Origin::Signed(who), country, balance);
            &&& !s.countries.contains(country) ==> t == s && r == Err::<(), DispatchError>(
                DispatchError::Module(Error::CountryDoesNotExist),
            )
            &&& s.countries.contains(country) && s.free_balance(who) < balance ==> t == s && r
                == Err::<(), DispatchError>(DispatchError::Module(Error::InsufficientFreeBalance))
            &&& r is Ok <==> s.countries.contains(country) && s.free_balance(who) >= balance
            &&& r is Ok ==> {
                &&& t.staked_balance(who, country) == s.staked_balance(who, country) + balance
                &&& forall|a: AccountId, c: CountryId|
                    (a, c) != (who, country) ==> #[trigger] t.staked_balance(a, c)
                        == s.staked_balance(a, c)
                &&& s.reserved_balance(who) + balance <= u64::MAX ==> {
                    &&& t.reserved_balance(who) == s.reserved_balance(who) + balance
                    &&& t.free_balance(who) == s.free_balance(who) - balance
                }
                &&& forall|a: AccountId|
                    a != who ==> #[trigger] account_of(t.balances, a) == account_of(s.balances, a)
                &&& t.events == s.events.push(Event::BalanceStaked(who, country, balance))
            }
            &&& t.rewards == s.rewards
            &&& t.unstake_requests == s.unstake_requests
            &&& t.countries == s.countries
            &&& t.current_era == s.current_era
            &&& t.era_info == s.era_info
        }),
{
}

/// Unstaking is accepted exactly when the amount is at most the signer's
/// stake on the country. It then takes exactly the amount off that stake and
/// records a request to release it `balance_lock_period` blocks from now;
/// it touches no other stake and no other request. Whether accepted or not,
/// it leaves every unclaimed reward and all funds as they were.
pub proof fn unstake_law(s: StakingState, who: AccountId, country: CountryId, balance: Balance)
    requires
        s.block_number + s.config.balance_lock_period <= u64::MAX,
    ensures
        ({
            let (t, r) = unstake(s, Origin::Signed(who), country, balance);
            let at = (s.block_number + s.config.balance_lock_period) as u64;
            &&& t.rewards == s.rewards
            &&& t.balances == s.balances
            &&& t.countries == s.countries
            &&& t.current_era == s.current_era
            &&& t.era_info == s.era_info
            &&& r is Ok <==> balance <= s.staked_balance(who, country)
            &&& r is Err ==> t == s && r == Err::<(), DispatchError>(
                DispatchError::Module(Error::InsufficientStakedBalance),
            )
            &&& r is Ok ==> {
                &&& t.staked_balance(who, country) == s.staked_balance(who, country) - balance
                &&& forall|a: AccountId, c: CountryId|
                    (a, c) != (who, country) ==> #[trigger] t.staked_balance(a, c)
                        == s.staked_balance(a, c)
                &&& t.unstake_request(at, who) == balance
                &&& forall|k: (BlockNumber, AccountId)|
                    k != (at, who) ==> #[trigger] value_or_zero(t.unstake_requests, k)
                        == value_or_zero(s.unstake_requests, k)
                &&& t.events == s.events.push(Event::BalanceUnstaked(who, country, balance))
            }
        }),
{
    let (t, r) = unstake(s, Origin::Signed(who), country, balance);
    let at = (s.block_number + s.config.balance_lock_period) as u64;
    if r is Ok {
        assert forall|k: (BlockNumber, AccountId)| k != (at, who) implies #[trigger] value_or_zero(
            t.unstake_requests,
            k,
        ) == value_or_zero(s.unstake_requests, k) by {}
    }
}

/// Claiming is accepted exactly when the signer has an unclaimed reward on
/// the country. It clears that reward and leaves every other reward as it
/// was, whatever the account or country; it touches no stake, no request, no
/// other account's funds and no reserved funds; the signer's free funds grow
/// by the reward (for a live account whose free funds do not overflow) and
/// never shrink.
pub proof fn claim_law(s: StakingState, who: AccountId, country: CountryId)
    ensures
        ({
            let (t, r) = claim(s, Origin::Signed(who), country);
            let reward = s.account_reward(who, country);
            &&& r is Ok <==> reward > 0
            &&& r is Err ==> t == s && r == Err::<(), DispatchError>(
                DispatchError::Module(Error::NoRewardsAvailable),
            )
            &&& r is Ok ==> t.account_reward(who, country) == 0
            &&& forall|a: AccountId, c: CountryId|
                (a, c) != (who, country) ==> #[trigger] t.account_reward(a, c) == s.account_reward(a, c)
            &&& t.staked == s.staked
            &&& t.unstake_requests == s.unstake_requests
            &&& forall|a: AccountId|
                a != who ==> #[trigger] account_of(t.balances, a) == account_of(s.balances, a)
            &&& t.reserved_balance(who) == s.reserved_balance(who)
            &&& t.free_balance(who) >= s.free_balance(who)
            &&& r is Ok && is_alive(account_of(s.balances, who)) && s.free_balance(who) + reward
                <= u64::MAX ==> t.free_balance(who) == s.free_balance(who) + reward
        }),
{
}

/// Reinvesting is accepted exactly when the signer has an unclaimed reward on
/// the country. It clears that reward, leaves every other reward as it was,
/// adds exactly the reward to the signer's stake on that country and touches
/// no other stake, no request and no other account's funds.
pub proof fn reinvest_law(s: StakingState, who: AccountId, country: CountryId)
    requires
        stake_fits(s, who, country, s.account_reward(who, country)),
    ensures
        ({
            let (t, r) = reinvest(s, Origin::Signed(who), country);
            let reward = s.account_reward(who, country);
            &&& r is Ok <==> reward > 0
            &&& r is Err ==> t == s && r == Err::<(), DispatchError>(
                DispatchError::Module(Error::NoRewardsAvailable),
            )
            &&& r is Ok ==> {
                &&& t.account_reward(who, country) == 0
                &&& t.staked_balance(who, country) == s.staked_balance(who, country) + reward
            }
            &&& forall|a: AccountId, c: CountryId|
                (a, c) != (who, country) ==> #[trigger] t.account_reward(a, c) == s.account_reward(a, c)
            &&& forall|a: AccountId, c: CountryId|
                (a, c) != (who, country) ==> #[trigger] t.staked_balance(a, c) == s.staked_balance(a, c)
            &&& t.unstake_requests == s.unstake_requests
            &&& forall|a: AccountId|
                a != who ==> #[trigger] account_of(t.balances, a) == account_of(s.balances, a)
        }),
{
}

/// The end of a block changes no stake and no country. An account without a
/// request maturing at this block keeps its funds; an account whose request
/// of `v` matures gets `v` (at most its reserved funds) moved from reserved
/// back to free funds. Requests maturing at this block are removed, all
/// others are kept; each removed request is reported once. Outside the
/// blocks where an era starts or ends, rewards stay as they were.
pub proof fn end_of_block_law(s: StakingState, now: BlockNumber, t: StakingState)
    requires
        finalized(s, now, t),
    ensures
        t.staked == s.staked,
        t.countries == s.countries,
        t.config == s.config,
        forall|who: AccountId|
            !s.unstake_requests.dom().contains((now, who)) ==> #[trigger] account_of(t.balances, who)
                == account_of(s.balances, who),
        forall|who: AccountId|
            #![trigger account_of(t.balances, who)]
            s.unstake_requests.dom().contains((now, who)) && is_alive(account_of(s.balances, who))
                ==> {
                let d = account_of(s.balances, who);
                let v = s.unstake_requests[(now, who)];
                let moved = if v <= d.reserved {
                    v
                } else {
                    d.reserved
                };
                &&& account_of(t.balances, who).reserved == d.reserved - moved
                &&& d.free + moved <= u64::MAX ==> account_of(t.balances, who).free == d.free + moved
            },
        forall|k: (BlockNumber, AccountId)|
            k.0 != now ==> #[trigger] value_or_zero(t.unstake_requests, k) == value_or_zero(
                s.unstake_requests,
                k,
            ),
        forall|who: AccountId| !#[trigger] t.unstake_requests.dom().contains((now, who)),
        forall|who: AccountId|
            #[trigger] s.unstake_requests.dom().contains((now, who)) ==> exists|i: int|
                0 <= i < t.events.len() && #[trigger] t.events[i] == Event::UnstakeRequestCompleted(
                    who,
                    s.unstake_requests[(now, who)],
                ),
        now != 1 && !s.era_info.contains((now, s.current_era)) ==> t.rewards == s.rewards
            && t.current_era == s.current_era,
{
    let s1 = era_step(s, now);
    lemma_era_step_keeps(s, now);
    assert forall|who: AccountId|
        !s.unstake_requests.dom().contains((now, who)) implies #[trigger] account_of(t.balances, who)
        == account_of(s.balances, who) by {
        if s.balances.dom().contains(who) {
            assert(t.balances[who] == s.balances[who]);
        }
    }
    assert forall|who: AccountId|
        #![trigger account_of(t.balances, who)]
        s.unstake_requests.dom().contains((now, who)) && is_alive(account_of(s.balances, who)) implies {
        let d = account_of(s.balances, who);
        let v = s.unstake_requests[(now, who)];
        let moved = if v <= d.reserved {
            v
        } else {
            d.reserved
        };
        &&& account_of(t.balances, who).reserved == d.reserved - moved
        &&& d.free + moved <= u64::MAX ==> account_of(t.balances, who).free == d.free + moved
    } by {
        assert(s.balances.dom().contains(who));
        assert(t.balances[who] == unreserve_outcome(s.balances, who, s.unstake_requests[(now, who)]).0[who]);
    }
    let completed = t.events.skip(s1.events.len() as int);
    assert forall|who: AccountId|
        #[trigger] s.unstake_requests.dom().contains((now, who)) implies exists|i: int|
        0 <= i < t.events.len() && #[trigger] t.events[i] == Event::UnstakeRequestCompleted(
            who,
            s.unstake_requests[(now, who)],
        ) by {
        let j = choose|j: int|
            0 <= j < completed.len() && #[trigger] completed[j] == Event::UnstakeRequestCompleted(
                who,
                s1.unstake_requests[(now, who)],
            );
        assert(t.events[s1.events.len() + j] == completed[j]);
    }
}

/// The currency's rules. Reserving `v` succeeds exactly when the free funds
/// cover it and the reserved funds do not overflow (or `v` is zero); it then
/// moves exactly `v` from free to reserved funds of that account only.
/// Unreserving `v` moves `v`, at most all reserved funds, back to free funds
/// of a live account only and reports the part not moved. Depositing `v`
/// into a live account adds exactly `v` to its free funds when that does not
/// overflow, and is refused for an account that holds nothing.
pub proof fn currency_law(m: Map<AccountId, AccountData>, who: AccountId, v: Balance, other: AccountId)
    requires
        other != who,
    ensures
        ({
            let d = account_of(m, who);
            &&& reserve_outcome(m, who, v) is Some <==> v == 0 || (d.free >= v && d.reserved + v
                <= u64::MAX)
            &&& reserve_outcome(m, who, v) matches Some(m2) ==> {
                &&& account_of(m2, who).free == d.free - v
                &&& account_of(m2, who).reserved == d.reserved + v
                &&& account_of(m2, other) == account_of(m, other)
            }
            &&& ({
                let (m2, rest) = unreserve_outcome(m, who, v);
                let moved = if v <= d.reserved {
                    v
                } else {
                    d.reserved
                };
                &&& account_of(m2, other) == account_of(m, other)
                &&& is_alive(d) ==> {
                    &&& account_of(m2, who).reserved == d.reserved - moved
                    &&& rest == v - moved
                    &&& d.free + moved <= u64::MAX ==> account_of(m2, who).free == d.free + moved
                }
                &&& !is_alive(d) ==> account_of(m2, who) == d && rest == v
            })
            &&& deposit_outcome(m, who, v) is Some <==> v == 0 || (is_alive(d) && d.free + v
                <= u64::MAX)
            &&& deposit_outcome(m, who, v) matches Some(m2) ==> {
                &&& account_of(m2, who).free == d.free + v
                &&& account_of(m2, who).reserved == d.reserved
                &&& account_of(m2, other) == account_of(m, other)
            }
        }),
{
}

} // verus!

//! Joining per-account lookups: for each account the engine is handed the
//! three raw query results — bank balance, delegation rewards, staking
//! delegations — and merges them into one [`UserInfo`] record, summing and
//! denomination-checking the amounts. Exactly one record is produced per
//! input account, or the whole join fails with the first account's error.
//!
//! Fetching itself happens outside the crate: a caller partitions the
//! account list into connection-sized batches with [`crate::range::plan`]
//! over the index range, reuses one set of query channels per batch, and
//! hands the fetched values here.

use crate::uint::{bound256, U256};
use vstd::prelude::*;

verus! {

/// DecCoin reward amounts arrive scaled by ten to the eighteenth; the joiner
/// divides them back down by this fixed-point scale.
pub const DEC_SCALE: u64 = 1_000_000_000_000_000_000;

/// One account to look up, by its ledger address.
#[derive(Debug)]
pub struct AccountQuery {
    pub address: String,
}

impl Clone for AccountQuery {
    /// A clone carries the same address.
    fn clone(&self) -> (r: Self)
        ensures
            r == *self,
    {
        AccountQuery { address: self.address.clone() }
    }
}

/// An amount of one denomination.
#[derive(Debug)]
pub struct Coin {
    pub denom: String,
    pub amount: U256,
}

/// The raw results of the three queries issued for one account, as the
/// remote source answered them: an optional denom-filtered balance, the
/// reward entries of every denomination, and the delegation entries, each
/// with an optional balance coin.
#[derive(Debug)]
pub struct AccountRecord {
    pub query: AccountQuery,
    pub balance: Option<Coin>,
    pub rewards: Vec<Coin>,
    pub delegations: Vec<Option<Coin>>,
}

/// One joined record per account, immutable once constructed.
#[derive(Debug)]
pub struct UserInfo {
    pub account: AccountQuery,
    pub balance: U256,
    pub unclaimed_rewards: U256,
    pub total_staked: U256,
}

/// Why a join failed.
#[derive(Clone, Copy, PartialEq, Eq, Structural, Debug)]
pub enum JoinError {
    /// A staking delegation carried a coin of the wrong denomination.
    /// Financial totals must never silently include mismatched values, so
    /// this stops the join rather than skipping the entry.
    DenomMismatch,
    /// A sum left the 256-bit amount range.
    Overflow,
}

/// The balance amount of a record: the coin's amount, or zero when the
/// source reported no balance at all.
pub open spec fn balance_val(rec: AccountRecord) -> int {
    match rec.balance {
        Some(c) => c.amount.val(),
        None => 0,
    }
}

/// Sum of the reward amounts whose denomination is `denom`; entries of other
/// denominations are ignored.
pub open spec fn rewards_sum(s: Seq<Coin>, denom: Seq<char>) -> int
    decreases s.len(),
{
    if s.len() == 0 {
        0
    } else {
        rewards_sum(s.drop_last(), denom) + if s.last().denom@ == denom {
            s.last().amount.val()
        } else {
            0
        }
    }
}

/// A delegation entry is acceptable when it carries no coin, or a coin of
/// the right denomination.
pub open spec fn delegation_matches(o: Option<Coin>, denom: Seq<char>) -> bool {
    match o {
        Some(c) => c.denom@ == denom,
        None => true,
    }
}

/// What one delegation entry stakes: the coin's amount, or nothing.
pub open spec fn staked_contrib(o: Option<Coin>) -> int {
    match o {
        Some(c) => c.amount.val(),
        None => 0,
    }
}

/// Sum of the staked amounts of a delegation sequence.
pub open spec fn staked_sum(s: Seq<Option<Coin>>) -> int
    decreases s.len(),
{
    if s.len() == 0 {
        0
    } else {
        staked_sum(s.drop_last()) + staked_contrib(s.last())
    }
}

/// The position of the first delegation entry of the wrong denomination, or
/// the length of the sequence when every entry matches.
pub open spec fn first_mismatch(s: Seq<Option<Coin>>, denom: Seq<char>) -> int
    decreases s.len(),
{
    if s.len() == 0 {
        0
    } else if !delegation_matches(s[0], denom) {
        0
    } else {
        1 + first_mismatch(s.drop_first(), denom)
    }
}

/// [`first_mismatch`] characterised: it is the least position holding a
/// mismatched entry, or the length when there is none.
pub proof fn lemma_first_mismatch_char(s: Seq<Option<Coin>>, denom: Seq<char>)
    ensures
        0 <= first_mismatch(s, denom) <= s.len(),
        first_mismatch(s, denom) < s.len() ==> !delegation_matches(
            s[first_mismatch(s, denom)],
            denom,
        ),
        forall|k: int|
            0 <= k < first_mismatch(s, denom) ==> #[trigger] delegation_matches(s[k], denom),
    decreases s.len(),
{
    if s.len() == 0 {
    } else if !delegation_matches(s[0], denom) {
    } else {
        lemma_first_mismatch_char(s.drop_first(), denom);
        let m = first_mismatch(s, denom);
        assert forall|k: int| 0 <= k < m implies #[trigger] delegation_matches(s[k], denom) by {
            if k > 0 {
                assert(s.drop_first()[k - 1] == s[k]);
            }
        }
        if m < s.len() {
            assert(s.drop_first()[m - 1] == s[m]);
        }
    }
}

/// Whether merging one record succeeds: the matching rewards fit in 256
/// bits, the stakes summed up to the first mismatch fit too, and there is no
/// mismatched delegation at all.
pub open spec fn merge_ok(rec: AccountRecord, denom: Seq<char>) -> bool {
    &&& rewards_sum(rec.rewards@, denom) < bound256()
    &&& staked_sum(rec.delegations@.take(first_mismatch(rec.delegations@, denom))) < bound256()
    &&& first_mismatch(rec.delegations@, denom) == rec.delegations@.len()
}

/// The error a failing merge reports: a sum that left the amount range is an
/// overflow — the rewards are summed first, the stakes in delegation order —
/// and otherwise the first mismatched delegation stops the join.
pub open spec fn merge_error(rec: AccountRecord, denom: Seq<char>) -> JoinError {
    if rewards_sum(rec.rewards@, denom) >= bound256() || staked_sum(
        rec.delegations@.take(first_mismatch(rec.delegations@, denom)),
    ) >= bound256() {
        JoinError::Overflow
    } else {
        JoinError::DenomMismatch
    }
}

/// What a successful merge returns: the account itself, its balance, the
/// matching rewards scaled down by [`DEC_SCALE`], and the full staked sum.
pub open spec fn merged_info_ok(rec: AccountRecord, denom: Seq<char>, u: UserInfo) -> bool {
    &&& u.account == rec.query
    &&& u.balance.val() == balance_val(rec)
    &&& u.unclaimed_rewards.val() == rewards_sum(rec.rewards@, denom) / (DEC_SCALE as int)
    &&& u.total_staked.val() == staked_sum(rec.delegations@)
}

/// One step of a rewards prefix.
proof fn lemma_rewards_take_step(s: Seq<Coin>, denom: Seq<char>, i: int)
    requires
        0 <= i < s.len(),
    ensures
        rewards_sum(s.take(i + 1), denom) == rewards_sum(s.take(i), denom) + if s[i].denom@
            == denom {
            s[i].amount.val()
        } else {
            0
        },
{
    assert(s.take(i + 1).drop_last() =~= s.take(i));
    assert(s.take(i + 1).last() == s[i]);
}

/// Reward prefix sums grow with the prefix.
proof fn lemma_rewards_prefix_le(s: Seq<Coin>, denom: Seq<char>, i: int)
    requires
        0 <= i <= s.len(),
    ensures
        rewards_sum(s.take(i), denom) <= rewards_sum(s, denom),
    decreases s.len() - i,
{
    if i == s.len() {
        assert(s.take(i) =~= s);
    } else {
        lemma_rewards_take_step(s, denom, i);
        crate::uint::lemma_val_bounds(s[i].amount);
        lemma_rewards_prefix_le(s, denom, i + 1);
    }
}

/// One step of a staked prefix.
proof fn lemma_staked_take_step(s: Seq<Option<Coin>>, i: int)
    requires
        0 <= i < s.len(),
    ensures
        staked_sum(s.take(i + 1)) == staked_sum(s.take(i)) + staked_contrib(s[i]),
{
    assert(s.take(i + 1).drop_last() =~= s.take(i));
    assert(s.take(i + 1).last() == s[i]);
}

/// Staked prefix sums grow with the prefix.
proof fn lemma_staked_prefix_le(s: Seq<Option<Coin>>, i: int, j: int)
    requires
        0 <= i <= j <= s.len(),
    ensures
        staked_sum(s.take(i)) <= staked_sum(s.take(j)),
    decreases j - i,
{
    if i < j {
        lemma_staked_take_step(s, i);
        match s[i] {
            Some(c) => {
                crate::uint::lemma_val_bounds(c.amount);
            },
            None => {},
        }
        lemma_staked_prefix_le(s, i + 1, j);
    }
}

/// Merge the three query results of one account into its joined record.
///
/// The balance is the reported coin's amount, zero when missing. The
/// unclaimed rewards are the sum of the reward entries matching `denom`,
/// scaled down by [`DEC_SCALE`]; entries of other denominations are ignored.
/// The total stake sums the delegation balances, every one of which must
/// match `denom`: a mismatch fails this account's join with
/// [`JoinError::DenomMismatch`], and a sum that leaves the 256-bit range
/// fails it with [`JoinError::Overflow`]. No partial record is ever
/// produced.
pub fn merge_user_information(record: &AccountRecord, denom: &String) -> (r: Result<
    UserInfo,
    JoinError,
>)
    ensures
        merge_ok(*record, denom@) <==> r is Ok,
        r is Ok ==> merged_info_ok(*record, denom@, r->Ok_0),
        !merge_ok(*record, denom@) ==> r == Err::<UserInfo, JoinError>(
            merge_error(*record, denom@),
        ),
{
    proof {
        lemma_first_mismatch_char(record.delegations@, denom@);
    }
    let balance: U256 = match &record.balance {
        Some(c) => c.amount,
        None => U256::zero(),
    };
    let mut rewards_total = U256::zero();
    let n = record.rewards.len();
    let mut i: usize = 0;
    proof {
        assert(record.rewards@.take(0) =~= Seq::<Coin>::empty());
    }
    while i < n
        invariant
            n == record.rewards@.len(),
            0 <= i <= n,
            rewards_total.val() == rewards_sum(record.rewards@.take(i as int), denom@),
        decreases n - i,
    {
        proof {
            lemma_rewards_take_step(record.rewards@, denom@, i as int);
        }
        let c = &record.rewards[i];
        if c.denom == *denom {
            match rewards_total.checked_add(c.amount) {
                Some(s) => {
                    rewards_total = s;
                },
                None => {
                    proof {
                        lemma_rewards_prefix_le(record.rewards@, denom@, i as int + 1);
                    }
                    return Err(JoinError::Overflow);
                },
            }
        }
        i = i + 1;
    }
    proof {
        assert(record.rewards@.take(n as int) =~= record.rewards@);
        crate::uint::lemma_val_bounds(rewards_total);
    }
    let mut staked_total = U256::zero();
    let m = record.delegations.len();
    let mut j: usize = 0;
    proof {
        assert(record.delegations@.take(0) =~= Seq::<Option<Coin>>::empty());
    }
    while j < m
        invariant
            m == record.delegations@.len(),
            0 <= j <= m,
            staked_total.val() == staked_sum(record.delegations@.take(j as int)),
            forall|k: int|
                0 <= k < j ==> #[trigger] delegation_matches(record.delegations@[k], denom@),
            rewards_total.val() == rewards_sum(record.rewards@, denom@),
            rewards_total.val() < bound256(),
        decreases m - j,
    {
        proof {
            lemma_staked_take_step(record.delegations@, j as int);
        }
        match &record.delegations[j] {
            Some(c) => {
                if !(c.denom == *denom) {
                    proof {
                        lemma_first_mismatch_char(record.delegations@, denom@);
                        crate::uint::lemma_val_bounds(staked_total);
                        assert(!delegation_matches(record.delegations@[j as int], denom@));
                        let fm = first_mismatch(record.delegations@, denom@);
                        if fm < j as int {
                            assert(delegation_matches(record.delegations@[fm], denom@));
                        }
                        assert(fm == j as int);
                    }
                    return Err(JoinError::DenomMismatch);
                }
                match staked_total.checked_add(c.amount) {
                    Some(s) => {
                        staked_total = s;
                    },
                    None => {
                        proof {
                            lemma_first_mismatch_char(record.delegations@, denom@);
                            let fm = first_mismatch(record.delegations@, denom@);
                            assert(fm >= j as int + 1);
                            lemma_staked_prefix_le(record.delegations@, j as int + 1, fm);
                        }
                        return Err(JoinError::Overflow);
                    },
                }
            },
            None => {},
        }
        j = j + 1;
    }
    proof {
        assert(record.delegations@.take(m as int) =~= record.delegations@);
        lemma_first_mismatch_char(record.delegations@, denom@);
        crate::uint::lemma_val_bounds(staked_total);
    }
    let unclaimed = rewards_total.div_u64(DEC_SCALE);
    Ok(
        UserInfo {
            account: record.query.clone(),
            balance,
            unclaimed_rewards: unclaimed,
            total_staked: staked_total,
        },
    )
}

/// The position of the first record whose merge fails, or the length when
/// every merge succeeds.
pub open spec fn first_failing(s: Seq<AccountRecord>, denom: Seq<char>) -> int
    decreases s.len(),
{
    if s.len() == 0 {
        0
    } else if !merge_ok(s[0], denom) {
        0
    } else {
        1 + first_failing(s.drop_first(), denom)
    }
}

/// [`first_failing`] characterised: the least failing position, or the
/// length when there is none.
pub proof fn lemma_first_failing_char(s: Seq<AccountRecord>, denom: Seq<char>)
    ensures
        0 <= first_failing(s, denom) <= s.len(),
        first_failing(s, denom) < s.len() ==> !merge_ok(s[first_failing(s, denom)], denom),
        forall|k: int| 0 <= k < first_failing(s, denom) ==> #[trigger] merge_ok(s[k], denom),
    decreases s.len(),
{
    if s.len() == 0 {
    } else if !merge_ok(s[0], denom) {
    } else {
        lemma_first_failing_char(s.drop_first(), denom);
        let m = first_failing(s, denom);
        assert forall|k: int| 0 <= k < m implies #[trigger] merge_ok(s[k], denom) by {
            if k > 0 {
                assert(s.drop_first()[k - 1] == s[k]);
            }
        }
        if m < s.len() {
            assert(s.drop_first()[m - 1] == s[m]);
        }
    }
}

/// Join the fetched query results of a whole account list.
///
/// On success the result holds exactly one [`UserInfo`] per input record, in
/// input order — a complete bijection between accounts and joined records.
/// The first record whose merge fails makes the whole join fail with that
/// record's error, and nothing is returned for any account.
pub fn get_balances_for_accounts(records: &Vec<AccountRecord>, denom: &String) -> (r: Result<
    Vec<UserInfo>,
    JoinError,
>)
    ensures
        r is Ok <==> first_failing(records@, denom@) == records@.len(),
        r is Ok ==> r->Ok_0@.len() == records@.len(),
        r is Ok ==> forall|k: int|
            0 <= k < records@.len() ==> merged_info_ok(records@[k], denom@, #[trigger] r->Ok_0@[k]),
        first_failing(records@, denom@) < records@.len() ==> r == Err::<Vec<UserInfo>, JoinError>(
            merge_error(records@[first_failing(records@, denom@)], denom@),
        ),
{
    let mut out: Vec<UserInfo> = Vec::new();
    let n = records.len();
    let mut i: usize = 0;
    while i < n
        invariant
            n == records@.len(),
            0 <= i <= n,
            out@.len() == i,
            forall|k: int| 0 <= k < i ==> #[trigger] merge_ok(records@[k], denom@),
            forall|k: int|
                0 <= k < i ==> merged_info_ok(records@[k], denom@, #[trigger] out@[k]),
        decreases n - i,
    {
        match merge_user_information(&records[i], denom) {
            Ok(u) => {
                out.push(u);
            },
            Err(e) => {
                proof {
                    lemma_first_failing_char(records@, denom@);
                    assert(first_failing(records@, denom@) == i as int);
                }
                return Err(e);
            },
        }
        i = i + 1;
    }
    proof {
        lemma_first_failing_char(records@, denom@);
    }
    Ok(out)
}

} // verus!

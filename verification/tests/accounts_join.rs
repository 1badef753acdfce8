//! Tests for the account joiner and the 256-bit amounts it sums.

use ledger_scan::accounts::{
    get_balances_for_accounts, merge_user_information, AccountQuery, AccountRecord, Coin,
    JoinError, UserInfo, DEC_SCALE,
};
use ledger_scan::uint::U256;

fn coin(denom: &str, amount: U256) -> Coin {
    Coin { denom: String::from(denom), amount }
}

fn record(
    address: &str,
    balance: Option<Coin>,
    rewards: Vec<Coin>,
    delegations: Vec<Option<Coin>>,
) -> AccountRecord {
    AccountRecord {
        query: AccountQuery { address: String::from(address) },
        balance,
        rewards,
        delegations,
    }
}

#[test]
fn merge_sums_balance_rewards_and_stake() {
    // One account: balance 1000, one reward entry of 2 * 10^18, one
    // delegation of 500, all in the native denomination.
    let rec = record(
        "gravity1alice",
        Some(coin("ugraviton", U256::from_u128(1000))),
        vec![coin("ugraviton", U256::from_u128(2 * DEC_SCALE as u128))],
        vec![Some(coin("ugraviton", U256::from_u128(500)))],
    );
    let denom = String::from("ugraviton");
    let info: UserInfo = merge_user_information(&rec, &denom).expect("join must succeed");
    assert_eq!(info.account.address, "gravity1alice");
    assert_eq!(info.balance, U256::from_u128(1000));
    assert_eq!(info.unclaimed_rewards, U256::from_u128(2));
    assert_eq!(info.total_staked, U256::from_u128(500));
}

#[test]
fn merge_missing_balance_is_zero() {
    let rec = record("gravity1bob", None, Vec::new(), Vec::new());
    let denom = String::from("ugraviton");
    let info = merge_user_information(&rec, &denom).expect("join must succeed");
    assert_eq!(info.balance, U256::from_u128(0));
    assert_eq!(info.unclaimed_rewards, U256::from_u128(0));
    assert_eq!(info.total_staked, U256::from_u128(0));
}

#[test]
fn merge_ignores_foreign_reward_denominations() {
    let rec = record(
        "gravity1carol",
        None,
        vec![
            coin("ibc/other", U256::from_u128(9 * DEC_SCALE as u128)),
            coin("ugraviton", U256::from_u128(3 * DEC_SCALE as u128)),
        ],
        Vec::new(),
    );
    let denom = String::from("ugraviton");
    let info = merge_user_information(&rec, &denom).expect("join must succeed");
    assert_eq!(info.unclaimed_rewards, U256::from_u128(3));
}

#[test]
fn merge_reward_scaling_rounds_down() {
    let rec = record(
        "gravity1dave",
        None,
        vec![coin("ugraviton", U256::from_u128(DEC_SCALE as u128 + DEC_SCALE as u128 / 2))],
        Vec::new(),
    );
    let denom = String::from("ugraviton");
    let info = merge_user_information(&rec, &denom).expect("join must succeed");
    assert_eq!(info.unclaimed_rewards, U256::from_u128(1));
}

#[test]
fn merge_mismatched_delegation_denom_fails() {
    let rec = record(
        "gravity1erin",
        None,
        Vec::new(),
        vec![
            Some(coin("ugraviton", U256::from_u128(10))),
            Some(coin("ibc/other", U256::from_u128(10))),
        ],
    );
    let denom = String::from("ugraviton");
    let r = merge_user_information(&rec, &denom);
    assert_eq!(r.err(), Some(JoinError::DenomMismatch));
}

#[test]
fn merge_delegation_without_coin_is_skipped() {
    let rec = record(
        "gravity1frank",
        None,
        Vec::new(),
        vec![None, Some(coin("ugraviton", U256::from_u128(7))), None],
    );
    let denom = String::from("ugraviton");
    let info = merge_user_information(&rec, &denom).expect("join must succeed");
    assert_eq!(info.total_staked, U256::from_u128(7));
}

#[test]
fn merge_reward_overflow_fails() {
    let huge = U256::from_halves(u128::MAX, u128::MAX);
    let rec = record(
        "gravity1grace",
        None,
        vec![coin("ugraviton", huge), coin("ugraviton", U256::from_u128(1))],
        Vec::new(),
    );
    let denom = String::from("ugraviton");
    let r = merge_user_information(&rec, &denom);
    assert_eq!(r.err(), Some(JoinError::Overflow));
}

#[test]
fn merge_stake_overflow_fails() {
    let huge = U256::from_halves(u128::MAX, u128::MAX);
    let rec = record(
        "gravity1heidi",
        None,
        Vec::new(),
        vec![
            Some(coin("ugraviton", huge)),
            Some(coin("ugraviton", U256::from_u128(1))),
        ],
    );
    let denom = String::from("ugraviton");
    let r = merge_user_information(&rec, &denom);
    assert_eq!(r.err(), Some(JoinError::Overflow));
}

#[test]
fn join_all_is_a_bijection() {
    let accounts = ["gravity1a", "gravity1b", "gravity1c", "gravity1d", "gravity1e"];
    let records: Vec<AccountRecord> = accounts
        .iter()
        .enumerate()
        .map(|(i, a)| {
            record(
                a,
                Some(coin("ugraviton", U256::from_u128(100 * (i as u128 + 1)))),
                Vec::new(),
                Vec::new(),
            )
        })
        .collect();
    let denom = String::from("ugraviton");
    let infos = get_balances_for_accounts(&records, &denom).expect("join must succeed");
    assert_eq!(infos.len(), records.len(), "exactly one record per account");
    for (i, info) in infos.iter().enumerate() {
        assert_eq!(info.account.address, accounts[i]);
        assert_eq!(info.balance, U256::from_u128(100 * (i as u128 + 1)));
    }
}

#[test]
fn join_all_empty_input_is_empty_output() {
    let denom = String::from("ugraviton");
    let infos = get_balances_for_accounts(&Vec::new(), &denom).expect("join must succeed");
    assert!(infos.is_empty());
}

#[test]
fn join_all_fails_whole_join_on_first_error() {
    let good = record("gravity1ok", None, Vec::new(), Vec::new());
    let bad = record(
        "gravity1bad",
        None,
        Vec::new(),
        vec![Some(coin("ibc/other", U256::from_u128(1)))],
    );
    let denom = String::from("ugraviton");
    let r = get_balances_for_accounts(&vec![good, bad], &denom);
    assert_eq!(r.err(), Some(JoinError::DenomMismatch));
}

#[test]
fn uint_checked_add_carries_between_halves() {
    let a = U256::from_halves(0, u128::MAX);
    let b = U256::from_u128(1);
    let s = a.checked_add(b).expect("no overflow");
    assert_eq!(s, U256::from_halves(1, 0));
}

#[test]
fn uint_checked_add_detects_overflow() {
    let max = U256::from_halves(u128::MAX, u128::MAX);
    assert_eq!(max.checked_add(U256::from_u128(1)), None);
    assert_eq!(max.checked_add(U256::from_u128(0)), Some(max));
}

#[test]
fn uint_div_small_values() {
    assert_eq!(U256::from_u128(100).div_u64(30), U256::from_u128(3));
    assert_eq!(U256::from_u128(0).div_u64(7), U256::from_u128(0));
}

#[test]
fn uint_div_crosses_halves() {
    // (5 * 2^128 + 5) / 5 == 2^128 + 1.
    let x = U256::from_halves(5, 5);
    assert_eq!(x.div_u64(5), U256::from_halves(1, 1));
    // 2^128 / 2^63 == 2^65.
    let y = U256::from_halves(1, 0);
    assert_eq!(y.div_u64(1u64 << 63), U256::from_u128(1u128 << 65));
}

#[test]
fn uint_value_equality() {
    assert!(U256::from_u128(9).same(U256::from_u128(9)));
    assert!(!U256::from_u128(9).same(U256::from_halves(1, 9)));
}

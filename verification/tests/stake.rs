use cw4_stake::claims::{Claim, ClaimsLedger};
use cw4_stake::denom::Denom;
use cw4_stake::duration::{BlockInfo, Duration, Expiration};
use cw4_stake::error::ContractError;
use cw4_stake::msg::InstantiateMsg;
use cw4_stake::state::StakeContract;

fn native() -> Denom {
    Denom::Native("utoken".to_string())
}

fn block(height: u64, time: u64) -> BlockInfo {
    BlockInfo { height, time }
}

fn setup(tokens_per_weight: u128, min_bond: u128, unbonding_period: Duration) -> StakeContract {
    StakeContract::new(InstantiateMsg {
        denom: native(),
        tokens_per_weight,
        min_bond,
        unbonding_period,
        admin: Some("admin".to_string()),
    })
    .unwrap()
}

#[test]
fn zero_tokens_per_weight_is_rejected() {
    let r = StakeContract::new(InstantiateMsg {
        denom: native(),
        tokens_per_weight: 0,
        min_bond: 0,
        unbonding_period: Duration::Time(100),
        admin: None,
    });
    assert!(matches!(r, Err(ContractError::ZeroTokensPerWeight)));
}

#[test]
fn bond_unbond_claim_scenario() {
    // tokens_per_weight 100, unbonding period 100 seconds
    let mut c = setup(100, 0, Duration::Time(100));
    let b1 = block(1, 1000);

    // Bond 1000 -> weight 10, total weight 10
    let diff = c.bond(&b1, "alice", 1000, &native()).unwrap().unwrap();
    assert_eq!(diff.old, None);
    assert_eq!(diff.new, Some(10));
    assert_eq!(c.total_weight(), 10);
    assert_eq!(c.staked("alice").stake, 1000);

    // Unbond 350 -> stake 650, weight 6, total weight 6
    let b2 = block(2, 2000);
    let diff = c.unbond(&b2, "alice", 350).unwrap().unwrap();
    assert_eq!(diff.old, Some(10));
    assert_eq!(diff.new, Some(6));
    assert_eq!(c.staked("alice").stake, 650);
    assert_eq!(c.total_weight(), 6);

    // A claim of 350 matures at 2000 + 100
    let claims = c.query_claims("alice").claims;
    assert_eq!(claims.len(), 1);
    assert_eq!(claims[0].amount, 350);
    assert_eq!(claims[0].release_at, Expiration::AtTime(2100));

    // Claiming before the release time fails
    let b3 = block(3, 2099);
    assert!(matches!(
        c.claim(&b3, "alice"),
        Err(ContractError::NothingToClaim)
    ));

    // Claiming at the release time returns 350 and empties the list
    let b4 = block(4, 2100);
    assert_eq!(c.claim(&b4, "alice").unwrap(), 350);
    assert!(c.query_claims("alice").claims.is_empty());
}

#[test]
fn min_bond_gates_only_the_first_bond() {
    let mut c = setup(100, 500, Duration::Time(100));
    let b = block(1, 1000);

    assert!(matches!(
        c.bond(&b, "bob", 400, &native()),
        Err(ContractError::BelowMinimumBond)
    ));
    assert_eq!(c.staked("bob").stake, 0);

    c.bond(&b, "bob", 500, &native()).unwrap();
    assert_eq!(c.staked("bob").stake, 500);

    // a top-up below the minimum is fine
    c.bond(&block(2, 2000), "bob", 10, &native()).unwrap();
    assert_eq!(c.staked("bob").stake, 510);
}

#[test]
fn wrong_denom_is_rejected() {
    let mut c = setup(100, 0, Duration::Time(100));
    let other = Denom::Native("uother".to_string());
    assert!(matches!(
        c.bond(&block(1, 1), "bob", 100, &other),
        Err(ContractError::WrongDenom)
    ));
    let cw20 = Denom::Cw20("utoken".to_string());
    assert!(matches!(
        c.bond(&block(1, 1), "bob", 100, &cw20),
        Err(ContractError::WrongDenom)
    ));
}

#[test]
fn unbond_needs_enough_stake() {
    let mut c = setup(100, 0, Duration::Time(100));
    c.bond(&block(1, 1), "bob", 100, &native()).unwrap();
    assert!(matches!(
        c.unbond(&block(2, 2), "bob", 101),
        Err(ContractError::InsufficientStake)
    ));
    c.unbond(&block(2, 2), "bob", 100).unwrap();
}

#[test]
fn two_unbonds_keep_distinct_claims() {
    let mut c = setup(100, 0, Duration::Time(100));
    c.bond(&block(1, 1000), "carol", 1000, &native()).unwrap();

    c.unbond(&block(2, 2000), "carol", 100).unwrap();
    c.unbond(&block(3, 3000), "carol", 100).unwrap();

    let claims = c.query_claims("carol").claims;
    assert_eq!(claims.len(), 2);
    assert_eq!(claims[0].release_at, Expiration::AtTime(2100));
    assert_eq!(claims[1].release_at, Expiration::AtTime(3100));

    // only the first has matured at 2100: it is paid, the other stays
    let paid = c.claim(&block(4, 2100), "carol").unwrap();
    assert_eq!(paid, 100);
    let claims = c.query_claims("carol").claims;
    assert_eq!(claims.len(), 1);
    assert_eq!(claims[0].release_at, Expiration::AtTime(3100));
    assert_eq!(claims[0].amount, 100);
}

#[test]
fn release_with_limit_splits_the_last_claim() {
    let mut ledger = ClaimsLedger::new();
    ledger.create_claim("dave", 100, Expiration::AtTime(10));
    ledger.create_claim("dave", 100, Expiration::AtTime(20));
    ledger.create_claim("dave", 100, Expiration::AtTime(5000));

    // both matured claims total 200; a cap of 150 releases the first whole
    // and splits the second, which keeps its release time
    let b = block(1, 30);
    let paid = ledger.release_claims("dave", &b, Some(150)).unwrap();
    assert_eq!(paid, 150);
    let rest = ledger.claims_for("dave");
    assert_eq!(
        rest,
        vec![
            Claim {
                amount: 50,
                release_at: Expiration::AtTime(20)
            },
            Claim {
                amount: 100,
                release_at: Expiration::AtTime(5000)
            },
        ]
    );

    // a cap of zero pays nothing
    assert!(matches!(
        ledger.release_claims("dave", &b, Some(0)),
        Err(ContractError::NothingToClaim)
    ));
}

#[test]
fn dust_changes_no_weight() {
    let mut c = setup(100, 0, Duration::Time(100));
    c.bond(&block(1, 1), "erin", 1000, &native()).unwrap();
    assert_eq!(c.total_weight(), 10);

    // 50 more does not reach the next weight unit: no diff, same weight
    let diff = c.bond(&block(2, 2), "erin", 50, &native()).unwrap();
    assert!(diff.is_none());
    assert_eq!(c.member("erin", None), Some(10));
    assert_eq!(c.total_weight(), 10);

    // another 50 tips it over
    let diff = c.bond(&block(3, 3), "erin", 50, &native()).unwrap().unwrap();
    assert_eq!(diff.old, Some(10));
    assert_eq!(diff.new, Some(11));
    assert_eq!(c.total_weight(), 11);
}

#[test]
fn historical_weights_stay_settled() {
    let mut c = setup(100, 0, Duration::Time(100));
    c.bond(&block(1, 1), "frank", 1000, &native()).unwrap();
    c.bond(&block(5, 5), "frank", 1000, &native()).unwrap();

    assert_eq!(c.member("frank", Some(1)), Some(10));
    assert_eq!(c.member("frank", Some(4)), Some(10));
    assert_eq!(c.member("frank", Some(5)), Some(20));
    assert_eq!(c.member("frank", Some(0)), None);

    // later activity leaves the past untouched
    c.unbond(&block(9, 9), "frank", 2000).unwrap();
    assert_eq!(c.member("frank", None), None);
    assert_eq!(c.member("frank", Some(1)), Some(10));
    assert_eq!(c.member("frank", Some(4)), Some(10));
    assert_eq!(c.member("frank", Some(5)), Some(20));
    assert_eq!(c.member("frank", Some(9)), None);
}

#[test]
fn weights_sum_to_total() {
    let mut c = setup(100, 0, Duration::Time(100));
    c.bond(&block(1, 1), "gina", 1000, &native()).unwrap();
    c.bond(&block(2, 2), "hank", 350, &native()).unwrap();
    c.bond(&block(3, 3), "ivan", 99, &native()).unwrap();

    // 10 + 3 + 0
    assert_eq!(c.total_weight(), 13);
    let members = c.list_members(None, None);
    let sum: u64 = members.iter().map(|m| m.weight).sum();
    assert_eq!(sum, c.total_weight());
}

#[test]
fn listing_is_paginated_in_address_order() {
    let mut c = setup(1, 0, Duration::Time(100));
    c.bond(&block(1, 1), "carl", 3, &native()).unwrap();
    c.bond(&block(2, 2), "alice", 1, &native()).unwrap();
    c.bond(&block(3, 3), "bob", 2, &native()).unwrap();

    let all = c.list_members(None, None);
    let names: Vec<&str> = all.iter().map(|m| m.addr.as_str()).collect();
    assert_eq!(names, vec!["alice", "bob", "carl"]);

    let after_alice = c.list_members(Some("alice"), None);
    let names: Vec<&str> = after_alice.iter().map(|m| m.addr.as_str()).collect();
    assert_eq!(names, vec!["bob", "carl"]);

    let first_two = c.list_members(None, Some(2));
    assert_eq!(first_two.len(), 2);
    assert_eq!(first_two[0].addr, "alice");
    assert_eq!(first_two[1].addr, "bob");

    // between stored keys: strictly-greater semantics
    let after_b = c.list_members(Some("b"), Some(1));
    assert_eq!(after_b.len(), 1);
    assert_eq!(after_b[0].addr, "bob");
}

#[test]
fn admin_gates_hooks() {
    let mut c = setup(100, 0, Duration::Time(100));

    assert!(matches!(
        c.add_hook("stranger", "hook1"),
        Err(ContractError::Unauthorized)
    ));

    c.add_hook("admin", "hook1").unwrap();
    assert!(matches!(
        c.add_hook("admin", "hook1"),
        Err(ContractError::HookDuplicate)
    ));
    c.add_hook("admin", "hook2").unwrap();
    assert_eq!(c.query_hooks(), vec!["hook1", "hook2"]);

    assert!(matches!(
        c.remove_hook("admin", "hook3"),
        Err(ContractError::HookNotFound)
    ));
    c.remove_hook("admin", "hook1").unwrap();
    assert_eq!(c.query_hooks(), vec!["hook2"]);
}

#[test]
fn admin_can_be_handed_over_and_dropped() {
    let mut c = setup(100, 0, Duration::Time(100));
    assert_eq!(c.query_admin(), Some("admin".to_string()));

    assert!(matches!(
        c.update_admin("stranger", Some("stranger".to_string())),
        Err(ContractError::Unauthorized)
    ));

    c.update_admin("admin", Some("next".to_string())).unwrap();
    assert_eq!(c.query_admin(), Some("next".to_string()));

    // dropping the admin disables admin operations for good
    c.update_admin("next", None).unwrap();
    assert_eq!(c.query_admin(), None);
    assert!(matches!(
        c.update_admin("next", Some("next".to_string())),
        Err(ContractError::Unauthorized)
    ));
    assert!(matches!(
        c.add_hook("next", "hook1"),
        Err(ContractError::Unauthorized)
    ));
}

#[test]
fn unbonding_by_height_uses_heights() {
    let mut c = setup(100, 0, Duration::Height(10));
    c.bond(&block(1, 1000), "judy", 500, &native()).unwrap();
    c.unbond(&block(2, 2000), "judy", 500).unwrap();

    let claims = c.query_claims("judy").claims;
    assert_eq!(claims[0].release_at, Expiration::AtHeight(12));

    assert!(matches!(
        c.claim(&block(11, 9000), "judy"),
        Err(ContractError::NothingToClaim)
    ));
    assert_eq!(c.claim(&block(12, 9001), "judy").unwrap(), 500);
}

#[test]
fn zero_unbonding_period_matures_in_a_later_call() {
    let mut c = setup(100, 0, Duration::Time(0));
    c.bond(&block(1, 1000), "kate", 300, &native()).unwrap();
    c.unbond(&block(2, 2000), "kate", 300).unwrap();

    // the claim matured immediately, and is collected by a separate call
    assert_eq!(c.claim(&block(3, 2000), "kate").unwrap(), 300);
}

use state_trie_migration::staking::{ExtBuilder, StakingMock};

#[test]
fn builder_bonds_the_pool_and_delegators() {
    let staking = ExtBuilder::default()
        .add_delegators(vec![(100, 50), (101, 60)])
        .build();
    assert_eq!(staking.bonded_balance(10), StakingMock::minimum_bond());
    assert_eq!(staking.bonded_balance(100), 50);
    assert_eq!(staking.bonded_balance(101), 60);
    assert_eq!(staking.bonded_balance(999), 0);
}

#[test]
fn build_and_execute_runs_the_body() {
    let mut ran = false;
    ExtBuilder::default().build_and_execute(|| {
        ran = true;
    });
    assert!(ran);
}

#[test]
fn bonding_and_unbonding_move_the_stake() {
    let mut staking = StakingMock::new();
    staking.set_bonded_balance(1, 100);
    assert!(staking.bond_extra(1, 20).is_ok());
    assert_eq!(staking.bonded_balance(1), 120);

    assert!(staking.unbond(1, 50).is_ok());
    assert_eq!(staking.bonded_balance(1), 70);

    assert_eq!(staking.withdraw_unbonded(1), Some(50));
    assert_eq!(staking.withdraw_unbonded(1), None);
    assert_eq!(staking.bonded_balance(1), 70);
}

#[test]
fn ledger_defaults_and_capabilities() {
    let mut staking = StakingMock::new();
    assert_eq!(staking.current_era(), 0);
    assert_eq!(StakingMock::bonding_duration(), 3);
    assert!(staking.can_bond_extra(1, 1));
    assert!(staking.can_bond(1, 2, 3));
    assert!(staking.can_nominate(1));
    assert!(StakingMock::nominate(1, vec![7, 8]).is_ok());

    assert!(staking.bond(5, 6, 40, 7).is_ok());
    assert_eq!(staking.bonded_balance(5), 40);
}

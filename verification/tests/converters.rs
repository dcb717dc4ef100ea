use state_trie_migration::uint::{BalanceToU256, U256ToBalance, U256};

#[test]
fn u256_to_balance_convert_works() {
    assert_eq!(U256ToBalance::convert(U256::from_u128(0)), 0);
    assert_eq!(U256ToBalance::convert(U256::from_u128(u128::MAX)), u128::MAX);
}

#[test]
fn balance_to_u256_convert_works() {
    assert_eq!(BalanceToU256::convert(0), U256::zero());
    assert_eq!(BalanceToU256::convert(u128::MAX), U256::from_u128(u128::MAX));
}

#[test]
fn narrowing_detects_overflow() {
    let wide = U256 { lo: 1, hi: 1 };
    assert_eq!(wide.to_u128(), None);
    assert_eq!(U256 { lo: 7, hi: 0 }.to_u128(), Some(7));
}

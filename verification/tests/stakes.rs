use pos::amount::Amount;
use pos::bytesrepr;
use pos::bytesrepr::{deserialize, FromBytes, ToBytes};
use pos::config::Config;
use pos::error::{Error, Rule};
use pos::ordered::Row;
use pos::stakes::StakeLedger;
use pos::validator::ValidatorId;

fn key(b: u8) -> ValidatorId {
    ValidatorId::new([b; 32])
}

fn amount(x: u64) -> Amount {
    Amount::from_u64(x)
}

fn ledger_of(rows: &[(u8, u64)]) -> StakeLedger {
    let mut ledger = StakeLedger::new();
    for (k, a) in rows {
        ledger.bond(&key(*k), &amount(*a));
    }
    ledger
}

fn row_bytes(k: u8, digits: &[u8]) -> Vec<u8> {
    let mut bytes = vec![32u8, 0, 0, 0];
    bytes.extend_from_slice(&[k; 32]);
    bytes.push(digits.len() as u8);
    bytes.extend_from_slice(&[0, 0, 0]);
    bytes.extend_from_slice(digits);
    bytes
}

fn with_count(count: u8, rows: &[Vec<u8>]) -> Vec<u8> {
    let mut bytes = vec![count, 0, 0, 0];
    for row in rows {
        bytes.extend_from_slice(row);
    }
    bytes
}

#[test]
fn a_new_ledger_has_no_entries() {
    let ledger = StakeLedger::new();
    assert_eq!(ledger.len(), 0);
    assert!(ledger.total().is_zero());
    assert!(ledger.stake(&key(1)).is_zero());
    assert!(ledger.spread_ok(&Amount::zero()));
}

#[test]
fn bond_creates_and_increases_entries() {
    let mut ledger = StakeLedger::new();
    ledger.bond(&key(2), &amount(100));
    assert_eq!(ledger.len(), 1);
    assert_eq!(ledger.stake(&key(2)), amount(100));
    ledger.bond(&key(1), &amount(30));
    ledger.bond(&key(3), &amount(5));
    ledger.bond(&key(2), &amount(50));
    assert_eq!(ledger.len(), 3);
    assert_eq!(ledger.stake(&key(1)), amount(30));
    assert_eq!(ledger.stake(&key(2)), amount(150));
    assert_eq!(ledger.stake(&key(3)), amount(5));
    assert_eq!(ledger.stake(&key(4)), Amount::zero());
    assert_eq!(ledger.total(), amount(185));
}

#[test]
fn the_ledger_does_not_depend_on_the_order_of_bonding() {
    assert_eq!(ledger_of(&[(1, 10), (2, 20), (3, 30)]), ledger_of(&[(3, 30), (1, 10), (2, 20)]));
    assert_eq!(ledger_of(&[(1, 10), (1, 5)]), ledger_of(&[(1, 15)]));
    assert_eq!(ledger_of(&[(1, 10), (2, 20)]).write(), ledger_of(&[(2, 20), (1, 10)]).write());
}

#[test]
fn bonding_nothing_leaves_no_entry_of_zero() {
    let mut ledger = ledger_of(&[(1, 10)]);
    ledger.bond(&key(2), &Amount::zero());
    assert_eq!(ledger, ledger_of(&[(1, 10)]));
    assert_eq!(ledger.len(), 1);
    ledger.bond(&key(1), &Amount::zero());
    assert_eq!(ledger, ledger_of(&[(1, 10)]));
}

#[test]
fn stakes_grow_beyond_any_fixed_width() {
    let mut ledger = StakeLedger::new();
    ledger.bond(&key(1), &Amount::largest(64));
    ledger.bond(&key(1), &amount(1));
    let mut digits = vec![0u8; 64];
    digits.push(1);
    assert_eq!(ledger.stake(&key(1)), Amount::from_le_bytes(&digits));
    assert_eq!(ledger.total(), Amount::from_le_bytes(&digits));
}

#[test]
fn duplicate_gives_an_equal_ledger() {
    let ledger = ledger_of(&[(1, 10), (2, 20)]);
    let mut copy = ledger.duplicate();
    assert_eq!(copy, ledger);
    copy.bond(&key(1), &amount(1));
    assert_eq!(ledger.stake(&key(1)), amount(10));
    assert_eq!(copy.stake(&key(1)), amount(11));
}

#[test]
fn the_spread_is_between_the_largest_and_the_smallest_stake() {
    let ledger = ledger_of(&[(1, 100), (2, 160), (3, 130)]);
    assert!(ledger.spread_ok(&amount(60)));
    assert!(!ledger.spread_ok(&amount(59)));
    assert!(ledger.spread_ok(&Amount::largest(64)));
    assert!(ledger_of(&[(1, 7)]).spread_ok(&Amount::zero()));
    assert!(ledger_of(&[(1, 7), (2, 7)]).spread_ok(&Amount::zero()));
    assert!(!ledger_of(&[(1, 7), (2, 8)]).spread_ok(&Amount::zero()));
}

#[test]
fn a_bond_within_all_limits_is_valid() {
    let config = Config::default();
    let ledger = ledger_of(&[(1, 100), (2, 100)]);
    assert_eq!(ledger.validate_bonding(&key(1), &amount(100), &config), Ok(()));
    assert_eq!(ledger.validate_bonding(&key(3), &amount(100), &config), Ok(()));
    assert_eq!(ledger.validate_bonding(&key(3), &Amount::zero(), &config), Ok(()));
    assert_eq!(ledger, ledger_of(&[(1, 100), (2, 100)]));
}

#[test]
fn a_bond_above_the_largest_increase_is_refused() {
    let mut config = Config::default();
    config.max_increase = amount(10);
    config.max_rel_increase = 1;
    let ledger = ledger_of(&[(1, 100), (2, 100)]);
    assert_eq!(
        ledger.validate_bonding(&key(1), &amount(11), &config),
        Err(Error::ValidationFailed(Rule::AbsoluteIncrease))
    );
    config.max_rel_increase = 1_000_000;
    assert_eq!(ledger.validate_bonding(&key(1), &amount(10), &config), Ok(()));
}

#[test]
fn a_bond_above_its_share_of_the_total_is_refused() {
    let config = Config::default();
    let ledger = ledger_of(&[(1, 100), (2, 100)]);
    assert_eq!(
        ledger.validate_bonding(&key(1), &amount(101), &config),
        Err(Error::ValidationFailed(Rule::RelativeIncrease))
    );
    assert_eq!(ledger.validate_bonding(&key(1), &amount(100), &config), Ok(()));
    let odd = ledger_of(&[(1, 3)]);
    assert_eq!(odd.validate_bonding(&key(1), &amount(1), &config), Ok(()));
    assert_eq!(
        odd.validate_bonding(&key(1), &amount(2), &config),
        Err(Error::ValidationFailed(Rule::RelativeIncrease))
    );
    assert_eq!(
        StakeLedger::new().validate_bonding(&key(1), &amount(1), &config),
        Err(Error::ValidationFailed(Rule::RelativeIncrease))
    );
}

#[test]
fn a_bond_that_spreads_the_stakes_too_far_is_refused() {
    let mut config = Config::default();
    config.max_spread = amount(50);
    let ledger = ledger_of(&[(1, 100), (2, 100)]);
    assert_eq!(ledger.validate_bonding(&key(1), &amount(50), &config), Ok(()));
    assert_eq!(
        ledger.validate_bonding(&key(1), &amount(51), &config),
        Err(Error::ValidationFailed(Rule::Spread))
    );
    assert_eq!(
        ledger.validate_bonding(&key(3), &amount(49), &config),
        Err(Error::ValidationFailed(Rule::Spread))
    );
    assert_eq!(ledger.validate_bonding(&key(3), &amount(50), &config), Ok(()));
}

#[test]
fn unbond_of_a_part_lowers_the_stake() {
    let config = Config::default();
    let mut ledger = ledger_of(&[(1, 100), (2, 100)]);
    assert_eq!(ledger.unbond(&key(1), Some(amount(20)), &config), Ok(amount(20)));
    assert_eq!(ledger, ledger_of(&[(1, 80), (2, 100)]));
    assert_eq!(ledger.total(), amount(180));
    assert_eq!(ledger.unbond(&key(1), Some(Amount::zero()), &config), Ok(Amount::zero()));
    assert_eq!(ledger, ledger_of(&[(1, 80), (2, 100)]));
}

#[test]
fn unbond_of_the_whole_stake_leaves_no_row() {
    let mut config = Config::default();
    config.max_rel_decrease = 1_000_000;
    let mut ledger = ledger_of(&[(1, 100), (2, 100)]);
    assert_eq!(ledger.unbond(&key(1), None, &config), Ok(amount(100)));
    assert_eq!(ledger, ledger_of(&[(2, 100)]));
    assert_eq!(ledger.len(), 1);
    assert_eq!(ledger.unbond(&key(2), Some(amount(100)), &config), Ok(amount(100)));
    assert_eq!(ledger, StakeLedger::new());
    assert_eq!(ledger.len(), 0);
    assert_eq!(ledger.write(), vec![0, 0, 0, 0]);
}

#[test]
fn unbond_by_a_validator_without_stake() {
    let config = Config::default();
    let mut ledger = ledger_of(&[(1, 100)]);
    assert_eq!(ledger.unbond(&key(2), None, &config), Ok(Amount::zero()));
    assert_eq!(ledger.unbond(&key(2), Some(amount(1)), &config), Err(Error::InsufficientStake));
    assert_eq!(ledger, ledger_of(&[(1, 100)]));
}

#[test]
fn unbond_of_more_than_the_stake_is_refused() {
    let mut config = Config::default();
    config.max_rel_decrease = 0;
    config.max_decrease = Amount::zero();
    let mut ledger = ledger_of(&[(1, 100), (2, 100)]);
    assert_eq!(ledger.unbond(&key(1), Some(amount(101)), &config), Err(Error::InsufficientStake));
    assert_eq!(ledger, ledger_of(&[(1, 100), (2, 100)]));
}

#[test]
fn unbond_above_the_largest_decrease_is_refused() {
    let mut config = Config::default();
    config.max_decrease = amount(10);
    config.max_rel_decrease = 0;
    let mut ledger = ledger_of(&[(1, 100), (2, 100)]);
    assert_eq!(
        ledger.unbond(&key(1), Some(amount(11)), &config),
        Err(Error::ValidationFailed(Rule::AbsoluteDecrease))
    );
    assert_eq!(
        ledger.unbond(&key(1), None, &config),
        Err(Error::ValidationFailed(Rule::AbsoluteDecrease))
    );
    assert_eq!(ledger, ledger_of(&[(1, 100), (2, 100)]));
    config.max_rel_decrease = 1_000_000;
    assert_eq!(ledger.unbond(&key(1), Some(amount(10)), &config), Ok(amount(10)));
}

#[test]
fn unbond_above_its_share_of_the_total_is_refused() {
    let config = Config::default();
    let mut ledger = ledger_of(&[(1, 100), (2, 100)]);
    assert_eq!(
        ledger.unbond(&key(1), Some(amount(21)), &config),
        Err(Error::ValidationFailed(Rule::RelativeDecrease))
    );
    assert_eq!(
        ledger.unbond(&key(1), None, &config),
        Err(Error::ValidationFailed(Rule::RelativeDecrease))
    );
    assert_eq!(ledger, ledger_of(&[(1, 100), (2, 100)]));
    assert_eq!(ledger.unbond(&key(1), Some(amount(20)), &config), Ok(amount(20)));
}

#[test]
fn a_ledger_is_stored_as_its_rows_in_the_order_of_their_keys() {
    let ledger = ledger_of(&[(2, 256), (1, 100)]);
    let expected = with_count(2, &[row_bytes(1, &[100]), row_bytes(2, &[0, 1])]);
    assert_eq!(ledger.write(), expected);
    assert_eq!(ledger.to_bytes(), expected);
    assert_eq!(StakeLedger::read(Some(&expected)), Ok(ledger_of(&[(1, 100), (2, 256)])));
    assert_eq!(deserialize::<StakeLedger>(&expected).unwrap().write(), expected);
    assert_eq!(StakeLedger::new().write(), vec![0, 0, 0, 0]);
    assert_eq!(StakeLedger::read(Some(&[0, 0, 0, 0])), Ok(StakeLedger::new()));
}

#[test]
fn a_ledger_that_was_never_stored_is_an_error() {
    assert_eq!(StakeLedger::read(None), Err(Error::LedgerUninitialized));
}

#[test]
fn rows_out_of_order_are_no_ledger() {
    let swapped = with_count(2, &[row_bytes(2, &[0, 1]), row_bytes(1, &[100])]);
    assert_eq!(
        StakeLedger::read(Some(&swapped)),
        Err(Error::SerializationError(bytesrepr::Error::FormattingError))
    );
    let twice = with_count(2, &[row_bytes(1, &[100]), row_bytes(1, &[100])]);
    assert_eq!(
        StakeLedger::read(Some(&twice)),
        Err(Error::SerializationError(bytesrepr::Error::FormattingError))
    );
}

#[test]
fn a_row_of_zero_is_no_ledger() {
    let zero = with_count(1, &[row_bytes(1, &[])]);
    assert_eq!(
        StakeLedger::read(Some(&zero)),
        Err(Error::SerializationError(bytesrepr::Error::FormattingError))
    );
    let second_zero = with_count(2, &[row_bytes(1, &[5]), row_bytes(2, &[])]);
    assert_eq!(
        StakeLedger::read(Some(&second_zero)),
        Err(Error::SerializationError(bytesrepr::Error::FormattingError))
    );
}

#[test]
fn broken_bytes_are_no_ledger() {
    let good = with_count(1, &[row_bytes(1, &[100])]);
    assert_eq!(
        StakeLedger::read(Some(&good[..good.len() - 1])),
        Err(Error::SerializationError(bytesrepr::Error::EarlyEndOfStream))
    );
    let mut longer = good.clone();
    longer.push(0);
    assert_eq!(
        StakeLedger::read(Some(&longer)),
        Err(Error::SerializationError(bytesrepr::Error::LeftOverBytes))
    );
    let padded = with_count(1, &[row_bytes(1, &[100, 0])]);
    assert_eq!(
        StakeLedger::read(Some(&padded)),
        Err(Error::SerializationError(bytesrepr::Error::FormattingError))
    );
    let missing_row = with_count(2, &[row_bytes(1, &[100])]);
    assert_eq!(
        StakeLedger::read(Some(&missing_row)),
        Err(Error::SerializationError(bytesrepr::Error::EarlyEndOfStream))
    );
}

#[test]
fn a_row_is_stored_as_validator_and_amount() {
    let row = Row { key: key(1), value: amount(100) };
    assert_eq!(row.to_bytes(), row_bytes(1, &[100]));
    let bytes = row_bytes(1, &[100]);
    let (read, rest) = Row::<ValidatorId, Amount>::from_bytes(&bytes).unwrap();
    assert_eq!(read, row);
    assert!(rest.is_empty());
}

#[test]
fn sound_holds_of_any_ledger() {
    let mut config = Config::default();
    config.max_rel_decrease = 1_000_000;
    let mut ledger = ledger_of(&[(1, 100), (2, 50)]);
    ledger.sound();
    ledger.unbond(&key(2), Some(amount(50)), &config).unwrap();
    ledger.sound();
    assert_eq!(ledger.len(), 1);
    assert!(ledger.stake(&key(2)).is_zero());
}

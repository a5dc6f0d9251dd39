use pos::amount::Amount;
use pos::bytesrepr;
use pos::config::Config;
use pos::error::{Error, Rule};
use pos::protocol::{
    bond, method_named, settle, step, unbond, Method, Outcome, Slots, State, TransferKind,
};
use pos::queue::{Queue, QueueEntry};
use pos::stakes::StakeLedger;
use pos::validator::ValidatorId;

fn id(b: u8) -> ValidatorId {
    ValidatorId::new([b; 32])
}

fn stakes(rows: &[(u8, u64)]) -> StakeLedger {
    let mut ledger = StakeLedger::new();
    for (k, a) in rows {
        ledger.bond(&id(*k), &Amount::from_u64(*a));
    }
    ledger
}

fn fresh(ledger: Option<StakeLedger>, config: &Config) -> State {
    State {
        ledger,
        bonding: Queue::new(config.max_bond_len),
        unbonding: Queue::new(config.max_unbond_len),
    }
}

fn open_config() -> Config {
    let mut config = Config::default();
    config.max_rel_increase = 1_000_000;
    config.max_rel_decrease = 1_000_000;
    config
}

#[test]
fn the_default_configuration() {
    let config = Config::default();
    assert_eq!(config.bond_delay, 60 * 60);
    assert_eq!(config.unbond_delay, 60 * 60 * 24);
    assert_eq!(config.max_bond_len, 10);
    assert_eq!(config.max_unbond_len, 100);
    assert_eq!(config.max_rel_increase, 500_000);
    assert_eq!(config.max_rel_decrease, 100_000);
    assert_eq!(config.max_spread, Amount::from_le_bytes(&[255; 64]));
    assert_eq!(config.max_increase, Amount::from_le_bytes(&[255; 64]));
    assert_eq!(config.max_decrease, Amount::from_le_bytes(&[255; 64]));
}

#[test]
fn bond_does_not_touch_the_ledger() {
    let config = Config::default();
    let mut state = fresh(Some(stakes(&[(1, 100), (2, 300)])), &config);
    let outcome = bond(&mut state, &config, Amount::from_u64(200), id(1), 5).unwrap();
    assert!(!outcome.ledger_changed);
    assert_eq!(state.ledger, Some(stakes(&[(1, 100), (2, 300)])));
    assert_eq!(state.unbonding.len(), 0);
    let mut slots = Slots { ledger: Some(vec![9, 9]), bonding: None, unbonding: Some(vec![7]) };
    assert_eq!(state.commit(&outcome, &[true], &mut slots), Ok(()));
    assert_eq!(slots.ledger, Some(vec![9, 9]));
    assert_eq!(slots.unbonding, Some(vec![7]));
    assert_eq!(slots.bonding, Some(state.bonding.write()));
}

#[test]
fn unbond_changes_ledger_and_queue_together() {
    let config = Config::default();
    let mut state = fresh(Some(stakes(&[(1, 100), (2, 300)])), &config);
    let outcome = unbond(&mut state, &config, Some(Amount::from_u64(40)), id(2), 9).unwrap();
    assert!(outcome.ledger_changed && outcome.unbonding_changed && !outcome.bonding_changed);
    assert_eq!(state.ledger, Some(stakes(&[(1, 100), (2, 260)])));
    assert_eq!(state.unbonding.len(), 1);
    assert_eq!(
        state.unbonding.entries[0],
        QueueEntry { validator: id(2), amount: Amount::from_u64(40), timestamp: 9 }
    );
    assert_eq!(outcome.transfers.len(), 1);
    assert_eq!(outcome.transfers[0].kind, TransferKind::DryRun);
    assert_eq!(outcome.transfers[0].validator, id(2));
    assert_eq!(outcome.transfers[0].amount, Amount::from_u64(40));
}

#[test]
fn bond_without_a_ledger_is_refused() {
    let config = Config::default();
    let mut state = fresh(None, &config);
    assert_eq!(
        bond(&mut state, &config, Amount::from_u64(1), id(1), 0),
        Err(Error::LedgerUninitialized)
    );
    assert_eq!(state, fresh(None, &config));
    assert_eq!(unbond(&mut state, &config, None, id(1), 0), Err(Error::LedgerUninitialized));
    assert_eq!(state, fresh(None, &config));
}

#[test]
fn a_full_queue_is_reported_before_a_missing_ledger() {
    let mut config = Config::default();
    config.max_bond_len = 0;
    config.max_unbond_len = 0;
    let mut state = fresh(None, &config);
    assert_eq!(bond(&mut state, &config, Amount::from_u64(1), id(1), 0), Err(Error::QueueFull));
    assert_eq!(unbond(&mut state, &config, None, id(1), 0), Err(Error::QueueFull));
}

#[test]
fn a_hundred_and_first_unbond_is_refused() {
    let config = open_config();
    let mut state = fresh(Some(stakes(&[(1, 1000)])), &config);
    for i in 0..100 {
        unbond(&mut state, &config, Some(Amount::from_u64(1)), id(1), i).unwrap();
    }
    assert_eq!(state.unbonding.len(), 100);
    let before = state.ledger.as_ref().unwrap().duplicate();
    assert_eq!(
        unbond(&mut state, &config, Some(Amount::from_u64(1)), id(1), 100),
        Err(Error::QueueFull)
    );
    assert_eq!(state.unbonding.len(), 100);
    assert_eq!(state.ledger, Some(before));
    assert_eq!(state.ledger.as_ref().unwrap().stake(&id(1)), Amount::from_u64(900));
}

#[test]
fn pending_bonds_count_when_a_bond_is_judged() {
    let config = Config::default();
    let mut state = fresh(Some(stakes(&[(1, 100)])), &config);
    assert_eq!(
        bond(&mut state, &config, Amount::from_u64(51), id(1), 1),
        Err(Error::ValidationFailed(Rule::RelativeIncrease))
    );
    bond(&mut state, &config, Amount::from_u64(50), id(1), 1).unwrap();
    assert_eq!(
        bond(&mut state, &config, Amount::from_u64(76), id(1), 2),
        Err(Error::ValidationFailed(Rule::RelativeIncrease))
    );
    assert_eq!(state.bonding.len(), 1);
    bond(&mut state, &config, Amount::from_u64(75), id(1), 2).unwrap();
    assert_eq!(state.bonding.len(), 2);
    assert_eq!(state.ledger, Some(stakes(&[(1, 100)])));
}

#[test]
fn pending_bonds_count_for_the_spread() {
    let mut config = open_config();
    config.max_spread = Amount::from_u64(50);
    let mut state = fresh(Some(stakes(&[(1, 100), (2, 100)])), &config);
    bond(&mut state, &config, Amount::from_u64(30), id(1), 1).unwrap();
    assert_eq!(
        bond(&mut state, &config, Amount::from_u64(21), id(1), 2),
        Err(Error::ValidationFailed(Rule::Spread))
    );
    bond(&mut state, &config, Amount::from_u64(20), id(1), 2).unwrap();
    bond(&mut state, &config, Amount::from_u64(10), id(2), 3).unwrap();
    assert_eq!(state.bonding.len(), 3);
}

#[test]
fn a_refused_unbond_changes_nothing() {
    let config = Config::default();
    let mut state = fresh(Some(stakes(&[(1, 100), (2, 100)])), &config);
    assert_eq!(
        unbond(&mut state, &config, Some(Amount::from_u64(101)), id(1), 1),
        Err(Error::InsufficientStake)
    );
    assert_eq!(
        unbond(&mut state, &config, Some(Amount::from_u64(21)), id(1), 1),
        Err(Error::ValidationFailed(Rule::RelativeDecrease))
    );
    assert_eq!(state, fresh(Some(stakes(&[(1, 100), (2, 100)])), &config));
}

#[test]
fn step_settles_bonds_in_the_order_of_their_arrival() {
    let config = open_config();
    let mut state = fresh(Some(stakes(&[(1, 100)])), &config);
    bond(&mut state, &config, Amount::from_u64(10), id(2), 100).unwrap();
    bond(&mut state, &config, Amount::from_u64(20), id(1), 200).unwrap();
    bond(&mut state, &config, Amount::from_u64(5), id(2), 300).unwrap();
    let outcome = step(&mut state, &config, 200 + config.bond_delay).unwrap();
    assert!(outcome.bonding_changed && outcome.ledger_changed && !outcome.unbonding_changed);
    assert!(outcome.transfers.is_empty());
    assert_eq!(state.ledger, Some(stakes(&[(1, 120), (2, 10)])));
    assert_eq!(state.bonding.len(), 1);
    assert_eq!(state.bonding.entries[0].timestamp, 300);
    let again = step(&mut state, &config, 200 + config.bond_delay).unwrap();
    assert_eq!(
        again,
        Outcome {
            ledger_changed: false,
            bonding_changed: false,
            unbonding_changed: false,
            transfers: vec![],
        }
    );
    assert_eq!(state.ledger, Some(stakes(&[(1, 120), (2, 10)])));
}

#[test]
fn step_pays_out_unbonds_in_the_order_of_their_arrival() {
    let config = open_config();
    let mut state = fresh(Some(stakes(&[(1, 100), (2, 100)])), &config);
    unbond(&mut state, &config, Some(Amount::from_u64(10)), id(2), 100).unwrap();
    unbond(&mut state, &config, None, id(1), 150).unwrap();
    unbond(&mut state, &config, Some(Amount::from_u64(5)), id(2), 200).unwrap();
    let too_early = step(&mut state, &config, 100 + config.unbond_delay - 1).unwrap();
    assert!(too_early.transfers.is_empty() && !too_early.unbonding_changed);
    let outcome = step(&mut state, &config, 150 + config.unbond_delay).unwrap();
    assert!(outcome.unbonding_changed && !outcome.bonding_changed && !outcome.ledger_changed);
    assert_eq!(outcome.transfers.len(), 2);
    assert_eq!(outcome.transfers[0].kind, TransferKind::Payout);
    assert_eq!(outcome.transfers[0].validator, id(2));
    assert_eq!(outcome.transfers[0].amount, Amount::from_u64(10));
    assert_eq!(outcome.transfers[1].kind, TransferKind::Payout);
    assert_eq!(outcome.transfers[1].validator, id(1));
    assert_eq!(outcome.transfers[1].amount, Amount::from_u64(100));
    assert_eq!(state.unbonding.len(), 1);
    assert_eq!(state.ledger, Some(stakes(&[(2, 85)])));
}

#[test]
fn step_before_a_delay_has_passed_takes_nothing() {
    let config = open_config();
    let mut state = fresh(Some(stakes(&[(1, 100)])), &config);
    bond(&mut state, &config, Amount::from_u64(10), id(1), 0).unwrap();
    bond(&mut state, &config, Amount::from_u64(10), id(1), 1).unwrap();
    let outcome = step(&mut state, &config, 5).unwrap();
    assert!(!outcome.bonding_changed && !outcome.ledger_changed && !outcome.unbonding_changed);
    assert!(outcome.transfers.is_empty());
    assert_eq!(state.bonding.len(), 2);
    assert_eq!(state.ledger, Some(stakes(&[(1, 100)])));
    let outcome = step(&mut state, &config, config.bond_delay - 1).unwrap();
    assert!(!outcome.bonding_changed && !outcome.ledger_changed);
    assert_eq!(state.bonding.len(), 2);
    let outcome = step(&mut state, &config, config.bond_delay).unwrap();
    assert!(outcome.bonding_changed && outcome.ledger_changed);
    assert_eq!(state.bonding.len(), 1);
    assert_eq!(state.bonding.entries[0].timestamp, 1);
    assert_eq!(state.ledger, Some(stakes(&[(1, 110)])));
}

#[test]
fn a_bond_made_at_time_zero_waits_for_its_delay() {
    let config = Config::default();
    let mut state = fresh(Some(stakes(&[(1, 100)])), &config);
    bond(&mut state, &config, Amount::from_u64(50), id(1), 0).unwrap();
    let outcome = step(&mut state, &config, 100).unwrap();
    assert_eq!(
        outcome,
        Outcome {
            ledger_changed: false,
            bonding_changed: false,
            unbonding_changed: false,
            transfers: vec![],
        }
    );
    assert_eq!(state.ledger, Some(stakes(&[(1, 100)])));
    assert_eq!(state.bonding.len(), 1);
    assert_eq!(
        state.bonding.entries[0],
        QueueEntry { validator: id(1), amount: Amount::from_u64(50), timestamp: 0 }
    );
    step(&mut state, &config, 3600).unwrap();
    assert_eq!(state.ledger, Some(stakes(&[(1, 150)])));
    assert_eq!(state.bonding.len(), 0);
}

#[test]
fn a_payout_asked_at_time_zero_waits_for_its_delay() {
    let config = open_config();
    let mut state = fresh(Some(stakes(&[(1, 100)])), &config);
    unbond(&mut state, &config, Some(Amount::from_u64(40)), id(1), 0).unwrap();
    let outcome = step(&mut state, &config, 100).unwrap();
    assert!(outcome.transfers.is_empty() && !outcome.unbonding_changed);
    assert_eq!(state.unbonding.len(), 1);
    let outcome = step(&mut state, &config, 86_399).unwrap();
    assert!(outcome.transfers.is_empty() && !outcome.unbonding_changed);
    let outcome = step(&mut state, &config, 86_400).unwrap();
    assert_eq!(outcome.transfers.len(), 1);
    assert_eq!(outcome.transfers[0].amount, Amount::from_u64(40));
    assert_eq!(state.unbonding.len(), 0);
}

#[test]
fn matured_unbonds_leave_unmatured_bonds_alone() {
    let mut config = open_config();
    config.bond_delay = 100_000;
    config.unbond_delay = 10;
    let mut state = fresh(None, &config);
    state.bonding.push(id(1), Amount::from_u64(10), 0).unwrap();
    state.unbonding.push(id(2), Amount::from_u64(20), 0).unwrap();
    state.unbonding.push(id(2), Amount::from_u64(30), 41).unwrap();
    let outcome = step(&mut state, &config, 50).unwrap();
    assert!(outcome.unbonding_changed && !outcome.bonding_changed && !outcome.ledger_changed);
    assert_eq!(outcome.transfers.len(), 1);
    assert_eq!(outcome.transfers[0].validator, id(2));
    assert_eq!(outcome.transfers[0].amount, Amount::from_u64(20));
    assert_eq!(state.bonding.len(), 1);
    assert_eq!(state.unbonding.len(), 1);
    assert_eq!(state.unbonding.entries[0].timestamp, 41);
    assert_eq!(state.ledger, None);
}

#[test]
fn a_request_made_late_matures_only_where_the_time_can_reach_it() {
    let mut config = open_config();
    config.bond_delay = 10;
    let mut state = fresh(Some(stakes(&[(1, 100)])), &config);
    state.bonding.push(id(1), Amount::from_u64(1), u64::MAX - 5).unwrap();
    state.bonding.push(id(1), Amount::from_u64(2), u64::MAX - 10).unwrap();
    let outcome = step(&mut state, &config, u64::MAX).unwrap();
    assert!(outcome.bonding_changed);
    assert_eq!(state.bonding.len(), 1);
    assert_eq!(state.bonding.entries[0].timestamp, u64::MAX - 5);
    assert_eq!(state.ledger, Some(stakes(&[(1, 102)])));
}

#[test]
fn step_with_due_bonds_and_no_ledger_changes_nothing() {
    let config = open_config();
    let mut state = fresh(None, &config);
    state.bonding.push(id(1), Amount::from_u64(10), 100).unwrap();
    state.unbonding.push(id(2), Amount::from_u64(20), 100).unwrap();
    let mut before = fresh(None, &config);
    before.bonding.push(id(1), Amount::from_u64(10), 100).unwrap();
    before.unbonding.push(id(2), Amount::from_u64(20), 100).unwrap();
    assert_eq!(
        step(&mut state, &config, 100 + config.unbond_delay),
        Err(Error::LedgerUninitialized)
    );
    assert_eq!(state, before);
    let outcome = step(&mut state, &config, 100 + config.bond_delay - 1).unwrap();
    assert!(!outcome.bonding_changed && !outcome.unbonding_changed && !outcome.ledger_changed);
}

#[test]
fn step_without_a_ledger_still_pays_out() {
    let config = open_config();
    let mut state = fresh(None, &config);
    state.unbonding.push(id(2), Amount::from_u64(20), 100).unwrap();
    let outcome = step(&mut state, &config, 100 + config.unbond_delay).unwrap();
    assert!(outcome.unbonding_changed && !outcome.ledger_changed && !outcome.bonding_changed);
    assert_eq!(outcome.transfers.len(), 1);
    assert_eq!(state.ledger, None);
}

#[test]
fn no_entry_of_zero_after_any_sequence() {
    let config = open_config();
    let mut state = fresh(Some(stakes(&[(1, 100), (2, 100)])), &config);
    bond(&mut state, &config, Amount::zero(), id(3), 1).unwrap();
    unbond(&mut state, &config, Some(Amount::from_u64(100)), id(1), 2).unwrap();
    step(&mut state, &config, 2 + config.unbond_delay).unwrap();
    let ledger = state.ledger.as_ref().unwrap();
    ledger.sound();
    assert_eq!(ledger.len(), 1);
    assert_eq!(*ledger, stakes(&[(2, 100)]));
    assert_eq!(ledger.write().len(), 4 + 36 + 5);
}

#[test]
fn settle_adds_each_bond() {
    let mut ledger = stakes(&[(1, 100)]);
    let bonds = vec![
        QueueEntry { validator: id(2), amount: Amount::from_u64(1), timestamp: 0 },
        QueueEntry { validator: id(1), amount: Amount::from_u64(2), timestamp: 0 },
        QueueEntry { validator: id(2), amount: Amount::from_u64(3), timestamp: 0 },
    ];
    settle(&mut ledger, &bonds);
    assert_eq!(ledger, stakes(&[(1, 102), (2, 4)]));
    settle(&mut ledger, &vec![]);
    assert_eq!(ledger, stakes(&[(1, 102), (2, 4)]));
}

#[test]
fn a_failed_escrow_stores_nothing() {
    let config = Config::default();
    let mut state = fresh(Some(stakes(&[(1, 100)])), &config);
    let stored = Slots { ledger: Some(stakes(&[(1, 100)]).write()), bonding: None, unbonding: None };
    let mut slots = Slots { ledger: Some(stakes(&[(1, 100)]).write()), bonding: None, unbonding: None };
    let outcome = bond(&mut state, &config, Amount::from_u64(50), id(1), 1000).unwrap();
    assert_eq!(state.commit(&outcome, &[false], &mut slots), Err(Error::TransferFailed));
    assert_eq!(slots, stored);
    let reloaded = State::load(&slots, &config).unwrap();
    assert_eq!(reloaded.bonding.len(), 0);
}

#[test]
fn a_failed_trial_transfer_stores_nothing() {
    let config = open_config();
    let mut state = fresh(Some(stakes(&[(1, 100)])), &config);
    let stored = Slots { ledger: Some(stakes(&[(1, 100)]).write()), bonding: None, unbonding: None };
    let mut slots = Slots { ledger: Some(stakes(&[(1, 100)]).write()), bonding: None, unbonding: None };
    let outcome = unbond(&mut state, &config, Some(Amount::from_u64(40)), id(1), 2000).unwrap();
    assert_eq!(state.commit(&outcome, &[false], &mut slots), Err(Error::TransferFailed));
    assert_eq!(slots, stored);
    let reloaded = State::load(&slots, &config).unwrap();
    assert_eq!(reloaded.ledger, Some(stakes(&[(1, 100)])));
    assert_eq!(reloaded.unbonding.len(), 0);
}

#[test]
fn one_failed_payout_stores_nothing() {
    let config = open_config();
    let mut state = fresh(Some(stakes(&[(1, 100), (2, 100)])), &config);
    let mut slots = Slots { ledger: Some(stakes(&[(1, 100), (2, 100)]).write()), bonding: None, unbonding: None };
    let first = unbond(&mut state, &config, Some(Amount::from_u64(10)), id(1), 0).unwrap();
    assert_eq!(state.commit(&first, &[true], &mut slots), Ok(()));
    let second = unbond(&mut state, &config, Some(Amount::from_u64(20)), id(2), 0).unwrap();
    assert_eq!(state.commit(&second, &[true], &mut slots), Ok(()));
    let stored_unbonding = slots.unbonding.clone();
    let stored_ledger = slots.ledger.clone();
    let outcome = step(&mut state, &config, config.unbond_delay).unwrap();
    assert_eq!(outcome.transfers.len(), 2);
    assert_eq!(state.commit(&outcome, &[true, false], &mut slots), Err(Error::TransferFailed));
    assert_eq!(slots.unbonding, stored_unbonding);
    assert_eq!(slots.ledger, stored_ledger);
    let mut reloaded = State::load(&slots, &config).unwrap();
    assert_eq!(reloaded.unbonding.len(), 2);
    let again = step(&mut reloaded, &config, config.unbond_delay).unwrap();
    assert_eq!(reloaded.commit(&again, &[true, true], &mut slots), Ok(()));
    assert_eq!(slots.unbonding, Some(vec![0, 0, 0, 0]));
}

#[test]
fn results_must_be_those_of_the_transfers_asked_for() {
    let config = Config::default();
    let mut state = fresh(Some(stakes(&[(1, 100)])), &config);
    let mut slots = Slots { ledger: None, bonding: None, unbonding: None };
    let outcome = bond(&mut state, &config, Amount::from_u64(50), id(1), 1000).unwrap();
    assert_eq!(state.commit(&outcome, &[], &mut slots), Err(Error::TransferFailed));
    assert_eq!(state.commit(&outcome, &[true, true], &mut slots), Err(Error::TransferFailed));
    assert_eq!(slots, Slots { ledger: None, bonding: None, unbonding: None });
    assert_eq!(state.commit(&outcome, &[true], &mut slots), Ok(()));
    assert_eq!(slots.bonding, Some(state.bonding.write()));
    let idle = step(&mut state, &config, 0).unwrap();
    assert_eq!(state.commit(&idle, &[], &mut slots), Ok(()));
}

#[test]
fn methods_go_by_their_names() {
    assert_eq!(method_named("bond"), Some(Method::Bond));
    assert_eq!(method_named("unbond"), Some(Method::Unbond));
    assert_eq!(method_named("step"), Some(Method::Step));
    assert_eq!(method_named(""), None);
    assert_eq!(method_named("Bond"), None);
    assert_eq!(method_named("bond "), None);
    assert_eq!(method_named("steps"), None);
    assert_eq!(method_named("unbon"), None);
}

#[test]
fn nothing_stored_loads_as_empty_queues_and_no_ledger() {
    let config = Config::default();
    let slots = Slots { ledger: None, bonding: None, unbonding: None };
    let state = State::load(&slots, &config).unwrap();
    assert_eq!(state, fresh(None, &config));
    assert_eq!(state.bonding.capacity, 10);
    assert_eq!(state.unbonding.capacity, 100);
}

#[test]
fn what_was_saved_loads_again() {
    let config = open_config();
    let mut state = fresh(Some(stakes(&[(1, 100), (2, 100)])), &config);
    let mut slots = Slots { ledger: Some(stakes(&[(1, 100), (2, 100)]).write()), bonding: None, unbonding: None };
    let outcome = bond(&mut state, &config, Amount::from_u64(50), id(1), 1000).unwrap();
    assert_eq!(state.commit(&outcome, &[true], &mut slots), Ok(()));
    assert_eq!(slots.unbonding, None);
    let outcome = unbond(&mut state, &config, Some(Amount::from_u64(40)), id(2), 2000).unwrap();
    assert_eq!(state.commit(&outcome, &[true], &mut slots), Ok(()));
    assert_eq!(slots.ledger, Some(stakes(&[(1, 100), (2, 60)]).write()));
    let loaded = State::load(&slots, &config).unwrap();
    assert_eq!(loaded, state);
    let mut loaded = loaded;
    let outcome = step(&mut loaded, &config, 1000 + config.bond_delay).unwrap();
    let kept_unbonding = slots.unbonding.clone();
    assert_eq!(loaded.commit(&outcome, &[], &mut slots), Ok(()));
    assert_eq!(slots.bonding, Some(vec![0, 0, 0, 0]));
    assert_eq!(slots.unbonding, kept_unbonding);
    assert_eq!(slots.ledger, Some(stakes(&[(1, 150), (2, 60)]).write()));
}

#[test]
fn broken_bytes_stop_the_loading() {
    let config = Config::default();
    let good = stakes(&[(1, 100)]).write();
    let slots = Slots { ledger: Some(good.clone()), bonding: Some(vec![1, 0, 0, 0]), unbonding: Some(vec![0, 0]) };
    assert_eq!(
        State::load(&slots, &config),
        Err(Error::SerializationError(bytesrepr::Error::EarlyEndOfStream))
    );
    let slots = Slots { ledger: Some(good.clone()), bonding: None, unbonding: Some(vec![0, 0, 0, 0, 0]) };
    assert_eq!(
        State::load(&slots, &config),
        Err(Error::SerializationError(bytesrepr::Error::LeftOverBytes))
    );
    let mut zero_row = vec![1u8, 0, 0, 0, 32, 0, 0, 0];
    zero_row.extend_from_slice(&[1; 32]);
    zero_row.extend_from_slice(&[0, 0, 0, 0]);
    let slots = Slots { ledger: Some(zero_row), bonding: None, unbonding: None };
    assert_eq!(
        State::load(&slots, &config),
        Err(Error::SerializationError(bytesrepr::Error::FormattingError))
    );
    let slots = Slots { ledger: Some(good), bonding: Some(vec![0, 0, 0, 0, 0]), unbonding: Some(vec![0]) };
    assert_eq!(
        State::load(&slots, &config),
        Err(Error::SerializationError(bytesrepr::Error::LeftOverBytes))
    );
}

#[test]
fn commit_without_a_ledger_leaves_its_place() {
    let config = Config::default();
    let state = fresh(None, &config);
    let outcome = Outcome {
        ledger_changed: true,
        bonding_changed: false,
        unbonding_changed: true,
        transfers: vec![],
    };
    let mut slots = Slots { ledger: Some(vec![1]), bonding: Some(vec![2]), unbonding: None };
    assert_eq!(state.commit(&outcome, &[], &mut slots), Ok(()));
    assert_eq!(slots.ledger, Some(vec![1]));
    assert_eq!(slots.bonding, Some(vec![2]));
    assert_eq!(slots.unbonding, Some(vec![0, 0, 0, 0]));
}

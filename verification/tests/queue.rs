use pos::amount::Amount;
use pos::bytesrepr;
use pos::bytesrepr::{deserialize, ToBytes};
use pos::error::Error;
use pos::queue::{Queue, QueueEntry};
use pos::validator::ValidatorId;

fn key(b: u8) -> ValidatorId {
    ValidatorId::new([b; 32])
}

fn queue_of(capacity: usize, rows: &[(u8, u64, u64)]) -> Queue {
    let mut queue = Queue::new(capacity);
    for (k, a, t) in rows {
        queue.push(key(*k), Amount::from_u64(*a), *t).unwrap();
    }
    queue
}

fn stamps(entries: &[QueueEntry]) -> Vec<u64> {
    entries.iter().map(|e| e.timestamp).collect()
}

#[test]
fn a_new_queue_is_empty() {
    let queue = Queue::new(10);
    assert_eq!(queue.len(), 0);
    assert_eq!(queue.capacity, 10);
    assert!(!queue.is_full());
    assert!(Queue::new(0).is_full());
}

#[test]
fn push_appends_in_the_order_of_arrival() {
    let queue = queue_of(10, &[(1, 5, 30), (2, 6, 10), (1, 7, 20)]);
    assert_eq!(queue.len(), 3);
    assert_eq!(stamps(&queue.entries), vec![30, 10, 20]);
    assert_eq!(queue.entries[0].validator, key(1));
    assert_eq!(queue.entries[1].validator, key(2));
    assert_eq!(queue.entries[2].validator, key(1));
    assert_eq!(queue.entries[2].amount, Amount::from_u64(7));
}

#[test]
fn push_onto_a_full_queue_fails_and_changes_nothing() {
    let mut queue = queue_of(3, &[(1, 5, 1), (2, 6, 2), (3, 7, 3)]);
    assert!(queue.is_full());
    let before = queue_of(3, &[(1, 5, 1), (2, 6, 2), (3, 7, 3)]);
    assert_eq!(queue.push(key(4), Amount::from_u64(8), 4), Err(Error::QueueFull));
    assert_eq!(queue, before);
    let mut bonding = Queue::new(10);
    for i in 0..10 {
        assert_eq!(bonding.push(key(1), Amount::from_u64(1), i), Ok(()));
    }
    assert_eq!(bonding.push(key(1), Amount::from_u64(1), 10), Err(Error::QueueFull));
    assert_eq!(bonding.len(), 10);
    let mut unbonding = Queue::new(100);
    for i in 0..100 {
        assert_eq!(unbonding.push(key(1), Amount::from_u64(1), i), Ok(()));
    }
    assert_eq!(unbonding.push(key(1), Amount::from_u64(1), 100), Err(Error::QueueFull));
    assert_eq!(unbonding.len(), 100);
}

#[test]
fn pop_older_than_takes_what_is_due_and_keeps_the_order() {
    let mut queue = queue_of(10, &[(1, 1, 50), (2, 2, 10), (3, 3, 30), (4, 4, 31), (5, 5, 30)]);
    assert_eq!(queue.count_due(30), 3);
    let removed = queue.pop_older_than(30);
    assert_eq!(stamps(&removed), vec![10, 30, 30]);
    assert_eq!(removed[0].validator, key(2));
    assert_eq!(removed[1].validator, key(3));
    assert_eq!(removed[2].validator, key(5));
    assert_eq!(removed[2].amount, Amount::from_u64(5));
    assert_eq!(stamps(&queue.entries), vec![50, 31]);
    assert_eq!(queue.entries[0].validator, key(1));
    assert_eq!(queue.capacity, 10);
}

#[test]
fn pop_older_than_twice_takes_nothing_the_second_time() {
    let mut queue = queue_of(10, &[(1, 1, 5), (2, 2, 15), (3, 3, 10)]);
    let first = queue.pop_older_than(10);
    assert_eq!(first.len(), 2);
    let after_first = queue_of(10, &[(2, 2, 15)]);
    assert_eq!(queue, after_first);
    let second = queue.pop_older_than(10);
    assert!(second.is_empty());
    assert_eq!(queue, after_first);
}

#[test]
fn pop_older_than_at_the_edges() {
    let mut queue = queue_of(10, &[(1, 1, 0), (2, 2, u64::MAX)]);
    assert_eq!(queue.count_due(0), 1);
    assert_eq!(queue.count_due(u64::MAX), 2);
    let removed = queue.pop_older_than(0);
    assert_eq!(stamps(&removed), vec![0]);
    let removed = queue.pop_older_than(u64::MAX - 1);
    assert!(removed.is_empty());
    let removed = queue.pop_older_than(u64::MAX);
    assert_eq!(stamps(&removed), vec![u64::MAX]);
    assert_eq!(queue.len(), 0);
    let mut empty = Queue::new(10);
    assert!(empty.pop_older_than(100).is_empty());
    assert_eq!(empty.count_due(100), 0);
}

#[test]
fn pop_matured_takes_what_has_waited_its_delay() {
    let mut queue = queue_of(10, &[(1, 1, 0), (2, 2, 40), (3, 3, 41), (4, 4, 10)]);
    assert_eq!(queue.count_matured(5, 10), 0);
    assert!(queue.pop_matured(5, 10).is_empty());
    assert!(queue.pop_matured(9, 10).is_empty());
    assert_eq!(queue.len(), 4);
    assert_eq!(queue.count_matured(50, 10), 3);
    let removed = queue.pop_matured(50, 10);
    assert_eq!(stamps(&removed), vec![0, 40, 10]);
    assert_eq!(stamps(&queue.entries), vec![41]);
    assert!(queue.pop_matured(50, 10).is_empty());
    assert_eq!(stamps(&queue.pop_matured(51, 10)), vec![41]);
    assert_eq!(queue.capacity, 10);
}

#[test]
fn pop_matured_at_the_edges() {
    let mut queue = queue_of(10, &[(1, 1, 0), (2, 2, u64::MAX), (3, 3, u64::MAX - 1)]);
    assert_eq!(queue.count_matured(u64::MAX, 1), 2);
    assert_eq!(queue.count_matured(u64::MAX, 0), 3);
    assert_eq!(queue.count_matured(0, 0), 1);
    assert_eq!(queue.count_matured(0, 1), 0);
    assert_eq!(queue.count_matured(u64::MAX - 1, u64::MAX), 0);
    assert_eq!(queue.count_matured(u64::MAX, u64::MAX), 1);
    assert_eq!(stamps(&queue.pop_matured(u64::MAX, 1)), vec![0, u64::MAX - 1]);
    assert_eq!(stamps(&queue.pop_matured(u64::MAX, 0)), vec![u64::MAX]);
}

#[test]
fn an_entry_is_stored_as_validator_amount_and_time() {
    let entry = QueueEntry { validator: key(7), amount: Amount::from_u64(50), timestamp: 1000 };
    let mut expected = vec![32u8, 0, 0, 0];
    expected.extend_from_slice(&[7; 32]);
    expected.extend_from_slice(&[1, 0, 0, 0, 50]);
    expected.extend_from_slice(&[232, 3, 0, 0, 0, 0, 0, 0]);
    assert_eq!(entry.to_bytes(), expected);
    assert_eq!(deserialize::<QueueEntry>(&expected), Ok(entry.duplicate()));
    assert_eq!(
        deserialize::<QueueEntry>(&expected[..expected.len() - 1]),
        Err(bytesrepr::Error::EarlyEndOfStream)
    );
    let mut wrong_key = expected.clone();
    wrong_key[0] = 31;
    assert_eq!(deserialize::<QueueEntry>(&wrong_key), Err(bytesrepr::Error::FormattingError));
}

#[test]
fn a_queue_that_was_never_stored_is_empty() {
    let queue = Queue::read(None, 10).unwrap();
    assert_eq!(queue, Queue::new(10));
}

#[test]
fn a_queue_comes_back_from_its_bytes() {
    let empty = Queue::new(10);
    assert_eq!(empty.write(), vec![0, 0, 0, 0]);
    assert_eq!(Queue::read(Some(&[0, 0, 0, 0]), 10), Ok(Queue::new(10)));
    let queue = queue_of(100, &[(1, 40, 2000), (2, 1 << 40, 3000)]);
    let bytes = queue.write();
    assert_eq!(&bytes[..4], &[2, 0, 0, 0]);
    assert_eq!(bytes.len(), 4 + (36 + 5 + 8) + (36 + 10 + 8));
    assert_eq!(Queue::read(Some(&bytes), 100), Ok(queue_of(100, &[(1, 40, 2000), (2, 1 << 40, 3000)])));
    assert_eq!(Queue::read(Some(&bytes), 100).unwrap().write(), bytes);
    assert_eq!(Queue::read(Some(&bytes[..bytes.len() - 1]), 100), Err(bytesrepr::Error::EarlyEndOfStream));
    let mut longer = bytes.clone();
    longer.push(0);
    assert_eq!(Queue::read(Some(&longer), 100), Err(bytesrepr::Error::LeftOverBytes));
}

#[test]
fn a_stored_queue_longer_than_its_capacity_is_full() {
    let bytes = queue_of(5, &[(1, 1, 1), (2, 2, 2), (3, 3, 3)]).write();
    let mut queue = Queue::read(Some(&bytes), 2).unwrap();
    assert_eq!(queue.len(), 3);
    assert!(queue.is_full());
    assert_eq!(queue.push(key(4), Amount::from_u64(4), 4), Err(Error::QueueFull));
    assert_eq!(queue.len(), 3);
}

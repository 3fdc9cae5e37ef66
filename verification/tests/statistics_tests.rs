use emphasis_trainer::model::statistics::{
    Group, Record, StatisticsError, Stats, StorageRead, SyncAction, Timestamp,
};
use emphasis_trainer::model::{CardResult, WordHash};

fn hash(value: u64) -> WordHash {
    WordHash::from_value(value)
}

fn level(stats: &Stats, value: u64) -> u8 {
    stats.get(hash(value)).unwrap().group().level()
}

#[test]
fn mastery_stays_between_0_and_7() {
    let mut group = Group::new();
    assert_eq!(group.level(), 0);
    group.demote();
    assert_eq!(group.level(), 0);
    for expected in 1..=7 {
        group.promote();
        assert_eq!(group.level(), expected);
    }
    group.promote();
    assert_eq!(group.level(), 7);
    for _ in 0..20 {
        group.promote();
    }
    assert_eq!(group.level(), 7);
    for _ in 0..20 {
        group.demote();
    }
    assert_eq!(group.level(), 0);
}

#[test]
fn repetition_days_by_level() {
    let days = [1, 2, 3, 5, 10, 30, 60, 90];
    for level in 0..8u8 {
        let group = Group::from_level(level).unwrap();
        assert_eq!(group.level(), level);
        assert_eq!(group.repetition_days(), days[level as usize]);
    }
    assert_eq!(Group::from_level(8), None);
    assert_eq!(Group::default(), Group::new());
}

#[test]
fn should_repeat_counts_whole_days() {
    let day: i64 = 86_400;
    let asked = Timestamp { secs: 1_000, nanos: 500 };
    let fresh = Record::from_parts(Some(asked), Group::new());
    // Level 0 is due after more than one whole day.
    assert!(!fresh.should_repeat_at(Timestamp { secs: 1_000 + day, nanos: 500 }));
    assert!(!fresh.should_repeat_at(Timestamp { secs: 1_000 + 2 * day, nanos: 499 }));
    assert!(fresh.should_repeat_at(Timestamp { secs: 1_000 + 2 * day, nanos: 500 }));
    // A record from the future is not due.
    assert!(!fresh.should_repeat_at(Timestamp { secs: 999, nanos: 0 }));
    assert!(!fresh.should_repeat_at(Timestamp { secs: 1_000, nanos: 499 }));
    // A word never asked is not due.
    assert!(!Record::new().should_repeat_at(Timestamp { secs: i64::MAX, nanos: 0 }));
    assert!(!Record::new().should_repeat());
    // Level 3 is due after more than five whole days.
    let known = Record::from_parts(Some(asked), Group::from_level(3).unwrap());
    assert!(!known.should_repeat_at(Timestamp { secs: 1_000 + 5 * day, nanos: 500 }));
    assert!(known.should_repeat_at(Timestamp { secs: 1_000 + 6 * day, nanos: 500 }));
    // The extremes do not overflow.
    let early = Record::from_parts(Some(Timestamp { secs: i64::MIN, nanos: 0 }), Group::new());
    assert!(early.should_repeat_at(Timestamp { secs: i64::MAX, nanos: u32::MAX }));
}

#[test]
fn record_takes_note_of_the_moment() {
    let mut record = Record::new();
    assert_eq!(record, Record::default());
    assert_eq!(record.last_occured(), None);
    let now = Timestamp { secs: 5, nanos: 6 };
    record.occured_at(now);
    assert_eq!(record.last_occured(), Some(now));
    record.passed(CardResult::Solved);
    assert_eq!(record.group().level(), 1);
    assert_eq!(record.last_occured(), Some(now));
    let mut record = Record::new();
    record.occured();
    let stamped = record.last_occured().unwrap();
    assert!(stamped.secs > 1_600_000_000);
    assert!(!record.should_repeat());
}

#[test]
fn new_keeps_one_record_for_each_hash() {
    let stats = Stats::new(vec![hash(3), hash(1), hash(3), hash(2)]);
    assert_eq!(stats.len(), 3);
    assert_eq!(
        stats.to_entries(),
        vec![(hash(3), Record::new()), (hash(1), Record::new()), (hash(2), Record::new())]
    );
    assert_eq!(stats.index_of(hash(1)), Some(1));
    assert_eq!(stats.index_of(hash(9)), None);
    assert_eq!(stats.get(hash(9)), None);
    assert_eq!(stats.entry(3), None);
    assert_eq!(stats.latest(), None);
    assert_eq!(Stats::empty().len(), 0);
}

#[test]
fn passed_moves_the_level_of_a_known_word() {
    let mut stats = Stats::new(vec![hash(1), hash(2)]);
    assert!(stats.passed(hash(1), CardResult::Solved));
    assert!(stats.passed(hash(1), CardResult::Solved));
    assert!(stats.passed(hash(2), CardResult::Failed));
    assert_eq!(level(&stats, 1), 2);
    assert_eq!(level(&stats, 2), 0);
    assert!(stats.passed(hash(1), CardResult::Failed));
    assert_eq!(level(&stats, 1), 1);
    for _ in 0..10 {
        stats.passed(hash(2), CardResult::Solved);
    }
    assert_eq!(level(&stats, 2), 7);
    // A word that is not known is passed over.
    let before = stats.to_entries();
    assert!(!stats.passed(hash(3), CardResult::Solved));
    assert_eq!(stats.to_entries(), before);
    assert_eq!(stats.len(), 2);
}

#[test]
fn next_with_counts_the_candidates_in_order() {
    let mut stats = Stats::new(vec![hash(10), hash(20), hash(30)]);
    let now = Timestamp { secs: 7, nanos: 8 };
    assert_eq!(stats.next_with(2, now), hash(30));
    assert_eq!(stats.latest(), Some(hash(30)));
    assert_eq!(stats.get(hash(30)).unwrap().last_occured(), Some(now));
    assert_eq!(stats.get(hash(10)).unwrap().last_occured(), None);
    assert_eq!(stats.next_with(1, now), hash(20));
    assert_eq!(stats.next_with(1, now), hash(30));
    assert_eq!(stats.next_with(0, now), hash(10));
    assert_eq!(stats.next_with(0, now), hash(20));
    assert_eq!(stats.len(), 3);
}

#[test]
fn next_never_repeats() {
    let mut stats = Stats::new(vec![hash(1), hash(2)]);
    let mut last = None;
    for _ in 0..1000 {
        let next = stats.next();
        assert!(next == hash(1) || next == hash(2));
        assert_ne!(Some(next), last);
        assert!(stats.get(next).unwrap().last_occured().is_some());
        last = Some(next);
    }
    let mut single = Stats::new(vec![hash(5)]);
    assert_eq!(single.next(), hash(5));
    assert_eq!(single.next(), hash(5));
}

#[test]
fn occured_at_passes_over_unknown_words() {
    let mut stats = Stats::new(vec![hash(1)]);
    let now = Timestamp { secs: 1, nanos: 2 };
    stats.occured_at(hash(2), now);
    assert_eq!(stats.to_entries(), vec![(hash(1), Record::new())]);
    stats.occured_at(hash(1), now);
    assert_eq!(stats.get(hash(1)).unwrap().last_occured(), Some(now));
}

#[test]
fn sync_merges_and_writes_once() {
    let solved = {
        let mut record = Record::new();
        record.passed(CardResult::Solved);
        record
    };
    let stored = vec![(hash(9), solved), (hash(1), solved)];
    let mut stats = Stats::new(vec![hash(1), hash(2)]);
    let action = stats.sync(StorageRead::Found(Stats::from_entries(stored.clone())));
    assert_eq!(action, Ok(SyncAction { reset: false, write: true }));
    // The stored order is kept, memory wins where both know the word.
    assert_eq!(
        stats.to_entries(),
        vec![(hash(9), solved), (hash(1), Record::new()), (hash(2), Record::new())]
    );
    // The second sync reads what the first one wrote.
    let written = stats.to_entries();
    let action = stats.sync(StorageRead::Found(Stats::from_entries(written.clone())));
    assert_eq!(action, Ok(SyncAction { reset: false, write: false }));
    assert_eq!(stats.to_entries(), written);
}

#[test]
fn sync_compares_without_regard_to_order() {
    let mut stats = Stats::new(vec![hash(1), hash(2)]);
    let stored = Stats::new(vec![hash(2), hash(1)]);
    assert!(stats.same_records(&stored));
    let action = stats.sync(StorageRead::Found(stored));
    assert_eq!(action, Ok(SyncAction { reset: false, write: false }));
    assert_eq!(stats.to_entries(), vec![(hash(1), Record::new()), (hash(2), Record::new())]);
    assert!(!stats.same_records(&Stats::new(vec![hash(1)])));
    assert!(!stats.same_records(&Stats::new(vec![hash(1), hash(3)])));
}

#[test]
fn sync_starts_empty_where_nothing_is_stored() {
    let mut stats = Stats::new(vec![hash(1)]);
    assert_eq!(stats.sync(StorageRead::Missing), Ok(SyncAction { reset: true, write: true }));
    assert_eq!(stats.to_entries(), vec![(hash(1), Record::new())]);
    assert_eq!(stats.sync(StorageRead::Malformed), Ok(SyncAction { reset: true, write: true }));
    let mut empty = Stats::empty();
    assert_eq!(empty.sync(StorageRead::Missing), Ok(SyncAction { reset: true, write: false }));
    assert_eq!(empty.len(), 0);
}

#[test]
fn sync_fails_on_a_storage_fault() {
    let mut stats = Stats::new(vec![hash(1)]);
    assert_eq!(stats.sync(StorageRead::Fault), Err(StatisticsError::Invalid));
    assert_eq!(stats.to_entries(), vec![(hash(1), Record::new())]);
}

#[test]
fn statistics_error_messages() {
    assert_eq!(StatisticsError::NoEntries.message(), "No entries stored in statistics.");
    assert_eq!(StatisticsError::Invalid.message(), "Statistics data is in invalid state.");
}

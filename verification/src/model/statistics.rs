//! Progress of the learner: a level of mastery for each word, when the word
//! was last asked, what to ask next, and how the statistics kept in memory
//! are brought together with those kept in storage.

use crate::model::entries::{
    candidates, distinct_keys, has_key, key_index, lemma_key_index, lemma_key_index_is,
    lemma_key_index_of_entry, lemma_merged_distinct, lemma_picked, lemma_put,
    lemma_same_as_itself, merged, picked, put, same_entries,
};
use crate::model::word::WordHash;
use indexmap::IndexMap;
use rand::seq::IteratorRandom;
use std::collections::hash_map::RandomState;
use vstd::prelude::*;
use vstd::string::StringExecFns;

verus! {

/// How a card was passed.
#[derive(Debug, Clone, Copy, PartialEq, Eq, Structural)]
pub enum CardResult {
    Solved,
    Failed,
}

/// What can be wrong with the statistics.
#[derive(Debug, Clone, Copy, PartialEq, Eq, Structural)]
pub enum StatisticsError {
    /// No entries stored in statistics.
    NoEntries,
    /// Statistics data is in invalid state.
    Invalid,
}

impl StatisticsError {
    /// What the error says.
    pub open spec fn text(self) -> Seq<char> {
        match self {
            StatisticsError::NoEntries => "No entries stored in statistics."@,
            StatisticsError::Invalid => "Statistics data is in invalid state."@,
        }
    }

    /// What the error says.
    pub fn message(&self) -> (res: String)
        ensures
            res@ == self.text(),
    {
        match self {
            StatisticsError::NoEntries => String::from_str("No entries stored in statistics."),
            StatisticsError::Invalid => String::from_str("Statistics data is in invalid state."),
        }
    }
}

/// The highest level of mastery.
pub const MAX_LEVEL: u8 = 7;

/// The level after a solved card.
pub open spec fn promoted(level: int) -> int {
    if level < MAX_LEVEL {
        level + 1
    } else {
        MAX_LEVEL as int
    }
}

/// The level after a failed card.
pub open spec fn demoted(level: int) -> int {
    if level > 0 {
        level - 1
    } else {
        0
    }
}

/// The level after a card passed with `result`.
pub open spec fn level_after(level: int, result: CardResult) -> int {
    match result {
        CardResult::Solved => promoted(level),
        CardResult::Failed => demoted(level),
    }
}

/// The level after the cards passed with `results`, in order.
pub open spec fn level_after_all(level: int, results: Seq<CardResult>) -> int
    decreases results.len(),
{
    if results.len() == 0 {
        level
    } else {
        level_after(level_after_all(level, results.drop_last()), results.last())
    }
}

/// After how many days a word of the level `level` is due again.
pub open spec fn repetition_days_of(level: int) -> int {
    if level == 0 {
        1
    } else if level == 1 {
        2
    } else if level == 2 {
        3
    } else if level == 3 {
        5
    } else if level == 4 {
        10
    } else if level == 5 {
        30
    } else if level == 6 {
        60
    } else {
        90
    }
}

/// Mastery stays in range: whatever cards are passed, a level between 0 and
/// 7 stays between 0 and 7.
pub proof fn lemma_level_stays_in_range(level: int, results: Seq<CardResult>)
    requires
        0 <= level <= MAX_LEVEL,
    ensures
        0 <= level_after_all(level, results) <= MAX_LEVEL,
    decreases results.len(),
{
    if results.len() > 0 {
        lemma_level_stays_in_range(level, results.drop_last());
    }
}

/// Solved cards alone raise the level by one each until it is 7, and failed
/// cards alone lower it by one each until it is 0.
pub proof fn lemma_level_saturates(level: int, results: Seq<CardResult>)
    requires
        0 <= level <= MAX_LEVEL,
    ensures
        (forall|i: int| 0 <= i < results.len() ==> results[i] == CardResult::Solved)
            ==> level_after_all(level, results) == if level + results.len() < MAX_LEVEL {
            level + results.len()
        } else {
            MAX_LEVEL as int
        },
        (forall|i: int| 0 <= i < results.len() ==> results[i] == CardResult::Failed)
            ==> level_after_all(level, results) == if level - results.len() > 0 {
            level - results.len()
        } else {
            0
        },
    decreases results.len(),
{
    if results.len() > 0 {
        let before = results.drop_last();
        lemma_level_saturates(level, before);
        assert(forall|i: int| 0 <= i < before.len() ==> before[i] == results[i]);
    }
}

/// Words are sorted into 8 groups, by how well they are known.
#[derive(Debug, Clone, Copy, PartialEq, Eq, PartialOrd, Ord, Structural)]
pub struct Group(u8);

impl View for Group {
    type V = int;

    closed spec fn view(&self) -> int {
        self.0 as int
    }
}

impl Default for Group {
    fn default() -> (group: Self)
        ensures
            group@ == 0,
    {
        Group(0)
    }
}

impl Group {
    /// The level is one of the eight.
    #[verifier::type_invariant]
    spec fn in_range(self) -> bool {
        self.0 <= MAX_LEVEL
    }

    /// The group of the words that are not known yet.
    pub fn new() -> (group: Self)
        ensures
            group@ == 0,
    {
        Group(0)
    }

    /// The group of the level `level`, if there is such a level.
    pub fn from_level(level: u8) -> (group: Option<Self>)
        ensures
            match group {
                Some(g) => level <= MAX_LEVEL && g@ == level,
                None => level > MAX_LEVEL,
            },
    {
        if level <= MAX_LEVEL {
            Some(Group(level))
        } else {
            None
        }
    }

    /// The level of the group, from 0 to 7.
    pub fn level(&self) -> (level: u8)
        ensures
            level == self@,
            level <= MAX_LEVEL,
    {
        proof {
            use_type_invariant(self);
        }
        self.0
    }

    /// Move to the next group, unless this is the last.
    pub fn promote(&mut self)
        ensures
            final(self)@ == promoted(old(self)@),
    {
        proof {
            use_type_invariant(&*self);
        }
        if self.0 < MAX_LEVEL {
            self.0 += 1;
        }
    }

    /// Move to the group before, unless this is the first.
    pub fn demote(&mut self)
        ensures
            final(self)@ == demoted(old(self)@),
    {
        proof {
            use_type_invariant(&*self);
        }
        self.0 = self.0.saturating_sub(1);
    }

    /// After how many days a word of this group is due again.
    pub fn repetition_days(&self) -> (days: u32)
        ensures
            days == repetition_days_of(self@),
    {
        proof {
            use_type_invariant(self);
        }
        match self.0 {
            0 => 1,
            1 => 2,
            2 => 3,
            3 => 5,
            4 => 10,
            5 => 30,
            6 => 60,
            _ => 90,
        }
    }
}

/// A moment in time: the seconds since the start of 1970, and the
/// nanoseconds since the last full second.
#[derive(Debug, Clone, Copy, PartialEq, Eq, Structural)]
pub struct Timestamp {
    pub secs: i64,
    pub nanos: u32,
}

/// The nanoseconds of a day.
pub open spec fn day_nanos() -> int {
    86_400_000_000_000
}

impl Timestamp {
    /// The moment in nanoseconds since the start of 1970.
    pub open spec fn total_nanos(self) -> int {
        self.secs * 1_000_000_000 + self.nanos
    }

    /// The moment in nanoseconds since the start of 1970.
    pub fn nanos_since_epoch(&self) -> (total: i128)
        ensures
            total == self.total_nanos(),
    {
        let secs: i128 = self.secs as i128;
        let nanos: i128 = self.nanos as i128;
        secs * 1_000_000_000 + nanos
    }
}

/// The `chrono::Utc::now` of the moment of the call, as the seconds and the
/// nanoseconds that `timestamp` and `timestamp_subsec_nanos` give for it.
/// Nothing is promised of the moment.
#[verifier::external_body]
pub(crate) fn current_time() -> Timestamp {
    let now = chrono::Utc::now();
    Timestamp { secs: now.timestamp(), nanos: now.timestamp_subsec_nanos() }
}

/// `IteratorRandom::choose` on the numbers below `count`, with the thread's
/// generator: some number below `count`, or none where `count` is 0. Which
/// number is left open.
#[verifier::external_body]
pub(crate) fn choose_below(count: usize) -> (choice: Option<usize>)
    ensures
        match choice {
            Some(c) => c < count,
            None => count == 0,
        },
{
    (0..count).choose(&mut rand::thread_rng())
}

/// Record contains statistical data about one word.
#[derive(Debug, Clone, Copy, PartialEq, Eq, Structural)]
pub struct Record {
    last_occured: Option<Timestamp>,
    group: Group,
}

/// What a `Record` holds, as plain values.
pub struct RecordView {
    pub last_occured: Option<Timestamp>,
    pub level: int,
}

impl RecordView {
    /// The record of a word that was never asked.
    pub open spec fn new() -> RecordView {
        RecordView { last_occured: None, level: 0 }
    }

    /// The record after the word was asked at the moment `now`.
    pub open spec fn occured_at(self, now: Timestamp) -> RecordView {
        RecordView { last_occured: Some(now), ..self }
    }

    /// The record after a card of the word was passed with `result`.
    pub open spec fn passed(self, result: CardResult) -> RecordView {
        RecordView { level: level_after(self.level, result), ..self }
    }

    /// Whether the word is due at the moment `now`: it was asked before, not
    /// after `now`, and more whole days have gone by since than its level
    /// asks for.
    pub open spec fn should_repeat_at(self, now: Timestamp) -> bool {
        match self.last_occured {
            Some(last) => last.total_nanos() <= now.total_nanos() && (now.total_nanos()
                - last.total_nanos()) / day_nanos() > repetition_days_of(self.level),
            None => false,
        }
    }
}

impl View for Record {
    type V = RecordView;

    closed spec fn view(&self) -> RecordView {
        RecordView { last_occured: self.last_occured, level: self.group@ }
    }
}

impl Default for Record {
    fn default() -> (record: Self)
        ensures
            record@ == RecordView::new(),
    {
        Record { last_occured: None, group: Group::new() }
    }
}

impl Record {
    /// Create new record.
    pub fn new() -> (record: Self)
        ensures
            record@ == RecordView::new(),
    {
        Record { last_occured: None, group: Group::new() }
    }

    /// The record of a word of the group `group` that was last asked at
    /// `last_occured`.
    pub fn from_parts(last_occured: Option<Timestamp>, group: Group) -> (record: Self)
        ensures
            record@ == (RecordView { last_occured, level: group@ }),
    {
        Record { last_occured, group }
    }

    /// When the word was last asked.
    pub fn last_occured(&self) -> (last: Option<Timestamp>)
        ensures
            last == self@.last_occured,
    {
        self.last_occured
    }

    /// The group of the word.
    pub fn group(&self) -> (group: Group)
        ensures
            group@ == self@.level,
            0 <= self@.level <= MAX_LEVEL,
    {
        proof {
            use_type_invariant(&self.group);
        }
        self.group
    }

    /// Two records with the same view are the same record.
    pub proof fn lemma_view_injective(a: Record, b: Record)
        requires
            a@ == b@,
        ensures
            a == b,
    {
    }

    /// Update inner timer of record to the moment `now`.
    pub fn occured_at(&mut self, now: Timestamp)
        ensures
            final(self)@ == old(self)@.occured_at(now),
    {
        self.last_occured = Some(now);
    }

    /// Update inner timer of record to the present moment.
    pub fn occured(&mut self)
        ensures
            final(self)@.last_occured is Some,
            final(self)@.level == old(self)@.level,
    {
        let now = current_time();
        self.occured_at(now);
    }

    /// Take note of a card passed with `result`.
    pub fn passed(&mut self, result: CardResult)
        ensures
            final(self)@ == old(self)@.passed(result),
    {
        match result {
            CardResult::Solved => {
                self.group.promote();
            },
            CardResult::Failed => {
                self.group.demote();
            },
        }
    }

    /// Returns true if at the moment `now` the time since the last
    /// repetition of the word is longer than its repetition period.
    pub fn should_repeat_at(&self, now: Timestamp) -> (due: bool)
        ensures
            due == self@.should_repeat_at(now),
    {
        match self.last_occured {
            Some(last) => {
                let then = last.nanos_since_epoch();
                let at = now.nanos_since_epoch();
                if then > at {
                    false
                } else {
                    let days = (at - then) / 86_400_000_000_000;
                    let period = self.group.repetition_days();
                    days > period as i128
                }
            },
            None => false,
        }
    }

    /// Returns true if time since last word repetition is longer than
    /// repetition period: what `should_repeat_at` gives for the present
    /// moment, whichever moment that is.
    pub fn should_repeat(&self) -> (due: bool)
        ensures
            exists|now: Timestamp| due == #[trigger] self@.should_repeat_at(now),
            self@.last_occured is None ==> !due,
    {
        let now = current_time();
        self.should_repeat_at(now)
    }
}

/// What an `indexmap::IndexMap` of records holds: its entries, in the map's
/// order. The functions below say what each call of the map does to them.
pub uninterp spec fn record_entries(map: IndexMap<u64, Record, RandomState>) -> Seq<(u64, Record)>;

/// `IndexMap::new`: a map without entries.
#[verifier::external_body]
fn records_new() -> (map: IndexMap<u64, Record>)
    ensures
        record_entries(map) == Seq::<(u64, Record)>::empty(),
{
    IndexMap::new()
}

/// `IndexMap::len`: the number of entries.
#[verifier::external_body]
fn records_len(map: &IndexMap<u64, Record>) -> (len: usize)
    ensures
        len == record_entries(*map).len(),
{
    map.len()
}

/// `IndexMap::insert`: where an entry has the key, its value is replaced and
/// it keeps its place; else the new entry comes last. The call is taken not
/// to unwind.
#[verifier::external_body]
fn records_insert(map: &mut IndexMap<u64, Record>, key: u64, value: Record)
    ensures
        record_entries(*final(map)) == put(record_entries(*old(map)), key, value),
    no_unwind
{
    map.insert(key, value);
}

/// `IndexMap::get_index`: the entry at the place `index`, if the map has as
/// many.
#[verifier::external_body]
fn records_get_index(map: &IndexMap<u64, Record>, index: usize) -> (entry: Option<(u64, Record)>)
    ensures
        match entry {
            Some(e) => index < record_entries(*map).len() && e == record_entries(*map)[index as int],
            None => index >= record_entries(*map).len(),
        },
{
    map.get_index(index).map(|(key, value)| (*key, *value))
}

/// `IndexMap::get_index_of`: the place of the entry that has the key, if
/// there is one.
#[verifier::external_body]
fn records_index_of(map: &IndexMap<u64, Record>, key: u64) -> (index: Option<usize>)
    ensures
        match index {
            Some(i) => i == key_index(record_entries(*map), key) && i < record_entries(*map).len(),
            None => key_index(record_entries(*map), key) == record_entries(*map).len(),
        },
{
    map.get_index_of(&key)
}

/// The entries of a map of records, each record by its view.
pub open spec fn views_of(entries: Seq<(u64, Record)>) -> Seq<(u64, RecordView)> {
    entries.map_values(|e: (u64, Record)| (e.0, e.1@))
}

/// The views of entries have the keys of the entries.
proof fn lemma_views_keys(entries: Seq<(u64, Record)>, key: u64)
    ensures
        key_index(views_of(entries), key) == key_index(entries, key),
        distinct_keys(views_of(entries)) == distinct_keys(entries),
{
    let views = views_of(entries);
    lemma_key_index(entries, key);
    lemma_key_index_is(views, key, key_index(entries, key));
    if distinct_keys(entries) {
        assert(distinct_keys(views));
    }
    if distinct_keys(views) {
        assert forall|i: int, j: int| 0 <= i < j < entries.len() implies entries[i].0
            != entries[j].0 by {
            assert(views[i].0 == entries[i].0);
            assert(views[j].0 == entries[j].0);
        }
    }
}

/// `put` and the views of entries can be taken in either order.
proof fn lemma_views_put(entries: Seq<(u64, Record)>, key: u64, value: Record)
    ensures
        views_of(put(entries, key, value)) == put(views_of(entries), key, value@),
{
    lemma_views_keys(entries, key);
    lemma_key_index(entries, key);
    assert(views_of(put(entries, key, value)) =~= put(views_of(entries), key, value@));
}

/// One entry for each of `hashes`, with the record of a word never asked.
pub open spec fn fresh_entries(hashes: Seq<u64>) -> Seq<(u64, RecordView)> {
    hashes.map_values(|h: u64| (h, RecordView::new()))
}

/// What reading the stored statistics gave.
pub enum StorageRead {
    /// The statistics that were stored.
    Found(Stats),
    /// Nothing is stored.
    Missing,
    /// What is stored cannot be read as statistics.
    Malformed,
    /// The storage itself failed.
    Fault,
}

/// What has to be written to storage after the statistics were brought
/// together with the stored ones.
#[derive(Debug, Clone, Copy, PartialEq, Eq, Structural)]
pub struct SyncAction {
    /// Store empty statistics first: nothing readable was stored.
    pub reset: bool,
    /// Store the statistics as they now are in memory.
    pub write: bool,
}

/// What a `StorageRead` holds, as plain values.
pub enum StorageReadView {
    Found(Seq<(u64, RecordView)>),
    Missing,
    Malformed,
    Fault,
}

impl View for StorageRead {
    type V = StorageReadView;

    open spec fn view(&self) -> StorageReadView {
        match *self {
            StorageRead::Found(stats) => StorageReadView::Found(stats@.entries),
            StorageRead::Missing => StorageReadView::Missing,
            StorageRead::Malformed => StorageReadView::Malformed,
            StorageRead::Fault => StorageReadView::Fault,
        }
    }
}

impl StorageReadView {
    /// The stored entries to go on with: those found, or none where nothing
    /// readable was stored.
    pub open spec fn entries(self) -> Seq<(u64, RecordView)> {
        match self {
            StorageReadView::Found(entries) => entries,
            _ => Seq::empty(),
        }
    }

    /// Whether storage holds nothing readable and is first given empty
    /// statistics.
    pub open spec fn reset(self) -> bool {
        self is Missing || self is Malformed
    }
}

/// What `Stats` holds, as plain values: the records by the hash of their
/// word, in the order in which the hashes came, and the hash that was given
/// out last.
pub struct StatsView {
    pub entries: Seq<(u64, RecordView)>,
    pub latest: Option<u64>,
}

impl StatsView {
    /// Whether a record is kept for `hash`.
    pub open spec fn tracks(self, hash: u64) -> bool {
        has_key(self.entries, hash)
    }

    /// How many entries can be given out next: all of them, or all but the
    /// one given out last where there are two or more.
    pub open spec fn candidates(self) -> int {
        candidates(self.entries, self.latest)
    }

    /// The place of the entry that is given out for the choice `choice`
    /// among the candidates.
    pub open spec fn picked(self, choice: int) -> int {
        picked(self.entries, self.latest, choice)
    }

    /// The statistics after the entry for the choice `choice` was given out
    /// at the moment `now`.
    pub open spec fn next_with(self, choice: int, now: Timestamp) -> StatsView {
        let at = self.picked(choice);
        StatsView {
            entries: self.entries.update(
                at,
                (self.entries[at].0, self.entries[at].1.occured_at(now)),
            ),
            latest: Some(self.entries[at].0),
        }
    }

    /// The statistics after the word `hash` was asked at the moment `now`:
    /// unchanged where no record is kept for `hash`.
    pub open spec fn occured(self, hash: u64, now: Timestamp) -> StatsView {
        if self.tracks(hash) {
            let at = key_index(self.entries, hash);
            StatsView {
                entries: self.entries.update(at, (hash, self.entries[at].1.occured_at(now))),
                ..self
            }
        } else {
            self
        }
    }

    /// The statistics after a card of the word `hash` was passed with
    /// `result`: unchanged where no record is kept for `hash`.
    pub open spec fn passed(self, hash: u64, result: CardResult) -> StatsView {
        if self.tracks(hash) {
            let at = key_index(self.entries, hash);
            StatsView {
                entries: self.entries.update(at, (hash, self.entries[at].1.passed(result))),
                ..self
            }
        } else {
            self
        }
    }

    /// The statistics after they were brought together with what was read
    /// from storage, and what has to be written. Where both hold the same,
    /// nothing changes and nothing is written; else the stored entries are
    /// kept, those in memory are put over them, and the result is written.
    pub open spec fn synced(self, read: StorageReadView) -> Result<
        (StatsView, SyncAction),
        StatisticsError,
    > {
        if read is Fault {
            Err(StatisticsError::Invalid)
        } else if same_entries(self.entries, read.entries()) {
            Ok((self, SyncAction { reset: read.reset(), write: false }))
        } else {
            Ok(
                (
                    StatsView { entries: merged(read.entries(), self.entries), ..self },
                    SyncAction { reset: read.reset(), write: true },
                ),
            )
        }
    }
}

/// What storage holds once `action` was carried out: `entries` is what the
/// memory holds after the sync, `read` what storage held before it.
pub open spec fn stored_after(
    read: StorageReadView,
    entries: Seq<(u64, RecordView)>,
    action: SyncAction,
) -> Seq<(u64, RecordView)> {
    if action.write {
        entries
    } else {
        read.entries()
    }
}

/// Sync is idempotent: a second sync that follows a sync without a change in
/// between, and that reads what the first one left in storage, changes
/// nothing and writes nothing.
pub proof fn lemma_sync_idempotent(stats: StatsView, read: StorageReadView)
    requires
        distinct_keys(stats.entries),
        distinct_keys(read.entries()),
        stats.synced(read) is Ok,
    ensures
        ({
            let (after, action) = stats.synced(read)->Ok_0;
            after.synced(StorageReadView::Found(stored_after(read, after.entries, action))) == Ok::<
                _,
                StatisticsError,
            >((after, SyncAction { reset: false, write: false }))
        }),
{
    let (after, action) = stats.synced(read)->Ok_0;
    if action.write {
        lemma_merged_distinct(read.entries(), stats.entries);
        lemma_same_as_itself(after.entries);
    }
}

/// The values of hashes.
pub open spec fn values_of(hashes: Seq<WordHash>) -> Seq<u64> {
    hashes.map_values(|h: WordHash| h@)
}

/// Entries, each with the value of its hash and the view of its record.
pub open spec fn entry_views(entries: Seq<(WordHash, Record)>) -> Seq<(u64, RecordView)> {
    entries.map_values(|e: (WordHash, Record)| (e.0@, e.1@))
}

/// What is given out next is kept in the statistics, becomes the hash given
/// out last, and is not the hash that was given out last before, where there
/// are two or more to choose from.
pub proof fn lemma_next_differs(stats: StatsView, choice: int, now: Timestamp)
    requires
        distinct_keys(stats.entries),
        0 <= choice < stats.candidates(),
    ensures
        0 <= stats.picked(choice) < stats.entries.len(),
        distinct_keys(stats.next_with(choice, now).entries),
        stats.next_with(choice, now).entries.len() == stats.entries.len(),
        stats.next_with(choice, now).latest == Some(stats.entries[stats.picked(choice)].0),
        stats.next_with(choice, now).tracks(stats.entries[stats.picked(choice)].0),
        stats.entries.len() >= 2 ==> stats.next_with(choice, now).latest != stats.latest,
{
    let at = stats.picked(choice);
    let after = stats.next_with(choice, now);
    lemma_picked(stats.entries, stats.latest, choice);
    lemma_key_index_is(after.entries, stats.entries[at].0, at);
}

/// No immediate repeat: of two hashes given out one after the other, from
/// statistics that keep two records or more, the second is not the first.
pub proof fn lemma_no_immediate_repeat(
    stats: StatsView,
    first: int,
    first_now: Timestamp,
    second: int,
    second_now: Timestamp,
)
    requires
        distinct_keys(stats.entries),
        stats.entries.len() >= 2,
        0 <= first < stats.candidates(),
        0 <= second < stats.next_with(first, first_now).candidates(),
    ensures
        stats.next_with(first, first_now).next_with(second, second_now).latest != stats.next_with(
            first,
            first_now,
        ).latest,
{
    lemma_next_differs(stats, first, first_now);
    lemma_next_differs(stats.next_with(first, first_now), second, second_now);
}

/// Stats struct stores the mapping between a word and its progression.
pub struct Stats {
    records: IndexMap<u64, Record>,
    latest: Option<u64>,
}

impl View for Stats {
    type V = StatsView;

    closed spec fn view(&self) -> StatsView {
        StatsView { entries: views_of(record_entries(self.records)), latest: self.latest }
    }
}

impl Stats {
    /// No two records are kept for one hash.
    #[verifier::type_invariant]
    spec fn distinct(self) -> bool {
        distinct_keys(record_entries(self.records))
    }

    /// Statistics without records.
    pub fn empty() -> (stats: Self)
        ensures
            stats@.entries == Seq::<(u64, RecordView)>::empty(),
            stats@.latest is None,
    {
        let stats = Stats { records: records_new(), latest: None };
        assert(stats@.entries =~= Seq::<(u64, RecordView)>::empty());
        stats
    }

    /// Put the record `record` for the hash `hash`: in the place of the
    /// record kept for it, or after all others.
    pub fn insert(&mut self, hash: WordHash, record: Record)
        ensures
            final(self)@.entries == put(old(self)@.entries, hash@, record@),
            final(self)@.latest == old(self)@.latest,
            distinct_keys(final(self)@.entries),
    {
        proof {
            use_type_invariant(&*self);
            lemma_put(record_entries(self.records), hash@, record);
            lemma_views_put(record_entries(self.records), hash@, record);
            lemma_views_keys(put(record_entries(self.records), hash@, record), hash@);
        }
        records_insert(&mut self.records, hash.value(), record);
    }

    /// How many records are kept. No two of them are kept for one hash.
    pub fn len(&self) -> (len: usize)
        ensures
            len == self@.entries.len(),
            distinct_keys(self@.entries),
    {
        proof {
            use_type_invariant(self);
            lemma_views_keys(record_entries(self.records), 0);
        }
        records_len(&self.records)
    }

    /// The hash that was given out last.
    pub fn latest(&self) -> (latest: Option<WordHash>)
        ensures
            match latest {
                Some(hash) => self@.latest == Some(hash@),
                None => self@.latest is None,
            },
    {
        match self.latest {
            Some(value) => Some(WordHash::from_value(value)),
            None => None,
        }
    }

    /// The entry at the place `index`, if there are as many.
    pub fn entry(&self, index: usize) -> (entry: Option<(WordHash, Record)>)
        ensures
            match entry {
                Some((hash, record)) => index < self@.entries.len() && self@.entries[index as int]
                    == (hash@, record@),
                None => index >= self@.entries.len(),
            },
    {
        match records_get_index(&self.records, index) {
            Some((key, record)) => Some((WordHash::from_value(key), record)),
            None => None,
        }
    }

    /// The place of the record kept for `hash`, if one is kept.
    pub fn index_of(&self, hash: WordHash) -> (index: Option<usize>)
        ensures
            match index {
                Some(i) => self@.tracks(hash@) && i == key_index(self@.entries, hash@),
                None => !self@.tracks(hash@),
            },
    {
        proof {
            lemma_views_keys(record_entries(self.records), hash@);
        }
        records_index_of(&self.records, hash.value())
    }

    /// The record kept for `hash`, if one is kept.
    pub fn get(&self, hash: WordHash) -> (record: Option<Record>)
        ensures
            match record {
                Some(r) => self@.tracks(hash@) && self@.entries[key_index(self@.entries, hash@)].1
                    == r@,
                None => !self@.tracks(hash@),
            },
    {
        match self.index_of(hash) {
            Some(index) => match self.entry(index) {
                Some((_, record)) => Some(record),
                None => None,
            },
            None => None,
        }
    }

    /// Statistics that keep the record of a word never asked for each of
    /// `words`, in their order.
    pub fn new(words: Vec<WordHash>) -> (stats: Self)
        ensures
            stats@.entries == merged(Seq::empty(), fresh_entries(values_of(words@))),
            stats@.latest is None,
    {
        let ghost wanted = fresh_entries(values_of(words@));
        let mut stats = Stats::empty();
        let mut i: usize = 0;
        assert(wanted.take(0) =~= Seq::<(u64, RecordView)>::empty());
        while i < words.len()
            invariant
                i <= words.len(),
                wanted == fresh_entries(values_of(words@)),
                stats@.entries == merged(Seq::empty(), wanted.take(i as int)),
                stats@.latest is None,
            decreases words.len() - i,
        {
            proof {
                assert(wanted.take(i + 1).drop_last() =~= wanted.take(i as int));
                assert(wanted.take(i + 1).last() == (words@[i as int]@, RecordView::new()));
            }
            stats.insert(words[i], Record::new());
            i += 1;
        }
        assert(wanted.take(wanted.len() as int) =~= wanted);
        stats
    }

    /// Statistics that keep `entries`, each put in turn.
    pub fn from_entries(entries: Vec<(WordHash, Record)>) -> (stats: Self)
        ensures
            stats@.entries == merged(Seq::empty(), entry_views(entries@)),
            stats@.latest is None,
    {
        let ghost wanted = entry_views(entries@);
        let mut stats = Stats::empty();
        let mut i: usize = 0;
        assert(wanted.take(0) =~= Seq::<(u64, RecordView)>::empty());
        while i < entries.len()
            invariant
                i <= entries.len(),
                wanted == entry_views(entries@),
                stats@.entries == merged(Seq::empty(), wanted.take(i as int)),
                stats@.latest is None,
            decreases entries.len() - i,
        {
            proof {
                assert(wanted.take(i + 1).drop_last() =~= wanted.take(i as int));
                assert(wanted.take(i + 1).last() == (entries@[i as int].0@, entries@[i as int].1@));
            }
            let (hash, record) = entries[i];
            stats.insert(hash, record);
            i += 1;
        }
        assert(wanted.take(wanted.len() as int) =~= wanted);
        stats
    }

    /// The entries that are kept, in their order.
    pub fn to_entries(&self) -> (entries: Vec<(WordHash, Record)>)
        ensures
            entry_views(entries@) == self@.entries,
    {
        let n = self.len();
        let mut entries: Vec<(WordHash, Record)> = Vec::new();
        let mut i: usize = 0;
        while i < n
            invariant
                i <= n,
                n == self@.entries.len(),
                entry_views(entries@) == self@.entries.take(i as int),
            decreases n - i,
        {
            match self.entry(i) {
                Some(entry) => {
                    proof {
                        assert(entry_views(entries@.push(entry)) =~= entry_views(entries@).push(
                            (entry.0@, entry.1@),
                        ));
                        assert(self@.entries.take(i + 1) =~= self@.entries.take(i as int).push(
                            self@.entries[i as int],
                        ));
                    }
                    entries.push(entry);
                },
                None => {},
            }
            i += 1;
        }
        assert(self@.entries.take(n as int) =~= self@.entries);
        entries
    }

    /// Give out the hash that the choice `choice` picks among those that can
    /// be given out, and note that its word was asked at the moment `now`.
    pub fn next_with(&mut self, choice: usize, now: Timestamp) -> (hash: WordHash)
        requires
            choice < old(self)@.candidates(),
        ensures
            final(self)@ == old(self)@.next_with(choice as int, now),
            final(self)@.latest == Some(hash@),
    {
        let n = self.len();
        let avoided = if n >= 2 {
            match self.latest() {
                Some(latest) => self.index_of(latest),
                None => None,
            }
        } else {
            None
        };
        let at = match avoided {
            Some(avoided) => if choice >= avoided {
                choice + 1
            } else {
                choice
            },
            None => choice,
        };
        assert(at == self@.picked(choice as int));
        match self.entry(at) {
            Some((hash, record)) => {
                let mut record = record;
                record.occured_at(now);
                proof {
                    lemma_key_index_of_entry(self@.entries, at as int);
                }
                self.insert(hash, record);
                proof {
                    use_type_invariant(&*self);
                }
                self.latest = Some(hash.value());
                hash
            },
            None => {
                proof {
                    if self@.latest is Some {
                        lemma_key_index(self@.entries, self@.latest->0);
                    }
                }
                assert(false);
                WordHash::from_value(0)
            },
        }
    }

    /// Get a following word to train by: one of the hashes that are kept,
    /// and not the one given out last where two or more are kept. The record
    /// of the hash takes note of the present moment.
    pub fn next(&mut self) -> (hash: WordHash)
        requires
            old(self)@.entries.len() > 0,
        ensures
            exists|choice: int, now: Timestamp|
                0 <= choice < old(self)@.candidates() && final(self)@ == #[trigger] old(
                    self,
                )@.next_with(choice, now),
            final(self)@.latest == Some(hash@),
            final(self)@.tracks(hash@),
            old(self)@.entries.len() >= 2 ==> Some(hash@) != old(self)@.latest,
    {
        let n = self.len();
        let skip = n >= 2 && match self.latest() {
            Some(latest) => self.index_of(latest).is_some(),
            None => false,
        };
        let candidates = if skip {
            n - 1
        } else {
            n
        };
        assert(candidates == self@.candidates());
        let now = current_time();
        match choose_below(candidates) {
            Some(choice) => {
                proof {
                    lemma_next_differs(self@, choice as int, now);
                }
                self.next_with(choice, now)
            },
            None => {
                assert(false);
                WordHash::from_value(0)
            },
        }
    }

    /// Note that the word `word` was asked at the moment `now`. A word of
    /// which no record is kept is passed over.
    pub fn occured_at(&mut self, word: WordHash, now: Timestamp)
        ensures
            final(self)@ == old(self)@.occured(word@, now),
    {
        match self.get(word) {
            Some(record) => {
                let mut record = record;
                record.occured_at(now);
                proof {
                    lemma_key_index(self@.entries, word@);
                }
                self.insert(word, record);
            },
            None => {},
        }
    }

    /// Update the level of a word depending on the card pass result. A word
    /// of which no record is kept is passed over. The result tells whether a
    /// record was changed, after which the statistics are to be synced.
    pub fn passed(&mut self, word: WordHash, result: CardResult) -> (changed: bool)
        ensures
            final(self)@ == old(self)@.passed(word@, result),
            changed == old(self)@.tracks(word@),
    {
        match self.get(word) {
            Some(record) => {
                let mut record = record;
                record.passed(result);
                proof {
                    lemma_key_index(self@.entries, word@);
                }
                self.insert(word, record);
                true
            },
            None => false,
        }
    }

    /// Whether these statistics and `other` keep the same records.
    pub fn same_records(&self, other: &Stats) -> (same: bool)
        ensures
            same == same_entries(self@.entries, other@.entries),
    {
        let n = self.len();
        if n != other.len() {
            return false;
        }
        let mut i: usize = 0;
        while i < n
            invariant
                i <= n,
                n == self@.entries.len(),
                n == other@.entries.len(),
                forall|j: int|
                    0 <= j < i ==> key_index(other@.entries, (#[trigger] self@.entries[j]).0)
                        < other@.entries.len() && other@.entries[key_index(
                        other@.entries,
                        self@.entries[j].0,
                    )].1 == self@.entries[j].1,
            decreases n - i,
        {
            match self.entry(i) {
                Some((hash, record)) => match other.get(hash) {
                    Some(kept) => {
                        if kept != record {
                            proof {
                                if kept@ == record@ {
                                    Record::lemma_view_injective(kept, record);
                                }
                            }
                            return false;
                        }
                    },
                    None => {
                        return false;
                    },
                },
                None => {},
            }
            i += 1;
        }
        true
    }

    /// Bring the statistics together with what was read from storage, and
    /// tell what has to be written. Where both keep the same records nothing
    /// changes; else the stored records are kept, those in memory are put
    /// over them, and the result is to be written. A failure of the storage
    /// is an error and changes nothing.
    pub fn sync(&mut self, read: StorageRead) -> (res: Result<SyncAction, StatisticsError>)
        ensures
            match res {
                Ok(action) => old(self)@.synced(read@) == Ok::<_, StatisticsError>(
                    (final(self)@, action),
                ),
                Err(error) => old(self)@.synced(read@) == Err::<(StatsView, SyncAction), _>(error)
                    && final(self)@ == old(self)@,
            },
    {
        let ghost base = read@.entries();
        let (mut stored, reset) = match read {
            StorageRead::Found(stats) => (stats, false),
            StorageRead::Missing => (Stats::empty(), true),
            StorageRead::Malformed => (Stats::empty(), true),
            StorageRead::Fault => {
                return Err(StatisticsError::Invalid);
            },
        };
        assert(stored@.entries == base);
        if self.same_records(&stored) {
            return Ok(SyncAction { reset, write: false });
        }
        let n = self.len();
        let mut i: usize = 0;
        assert(self@.entries.take(0) =~= Seq::<(u64, RecordView)>::empty());
        while i < n
            invariant
                i <= n,
                n == self@.entries.len(),
                stored@.entries == merged(base, self@.entries.take(i as int)),
            decreases n - i,
        {
            match self.entry(i) {
                Some((hash, record)) => {
                    proof {
                        assert(self@.entries.take(i + 1).drop_last() =~= self@.entries.take(
                            i as int,
                        ));
                        assert(self@.entries.take(i + 1).last() == (hash@, record@));
                    }
                    stored.insert(hash, record);
                },
                None => {},
            }
            i += 1;
        }
        assert(self@.entries.take(n as int) =~= self@.entries);
        proof {
            use_type_invariant(&stored);
        }
        stored.latest = self.latest;
        *self = stored;
        Ok(SyncAction { reset, write: true })
    }
}

} // verus!

//! The cache itself: a store of snapshots by day with a pointer at the
//! newest, filled once from the full history and then kept up to date.

use crate::calendar::parsed_date;
use crate::calendar::CivilDate;
use crate::codec::decode_snapshot;
use crate::codec::encode_snapshot;
use crate::errors::Error;
use crate::key::key_bytes;
use crate::key::key_for;
use crate::key::text_key;
use crate::snapshot::Snapshot;
use crate::snapshot::SnapshotView;
use crate::store::entries;
use crate::store::is_scan;
use crate::store::pair_views;
use crate::store::store_flush;
use crate::store::store_get;
use crate::store::store_insert;
use crate::store::store_open;
use crate::store::store_range;
use crate::sync::after_bootstrap;
use crate::sync::after_update;
use crate::sync::all_dated;
use crate::sync::current_date;
use crate::sync::current_snapshot;
use crate::sync::dates_of;
use crate::sync::feed_dates;
use crate::sync::first_undated;
use crate::sync::plan_bootstrap;
use crate::sync::plan_refresh;
use crate::sync::plan_update;
use crate::sync::pointer_key;
use crate::sync::pointer_tag;
use crate::sync::refresh_for;
use crate::sync::snapshot_at;
use crate::sync::snapshot_views;
use crate::sync::write_views;
use crate::sync::written;
use crate::sync::Refresh;
use crate::sync::Write;
use vstd::prelude::*;

verus! {

/// The cache in its store.
pub struct Db {
    inner: sled::Tree,
}

impl View for Db {
    type V = Map<Seq<u8>, Seq<u8>>;

    /// What the store holds: the value under each key.
    closed spec fn view(&self) -> Map<Seq<u8>, Seq<u8>> {
        entries(self.inner)
    }
}

/// The snapshots that a walk of the store found, in the order of the walk.
pub open spec fn scanned(
    held: Map<Seq<u8>, Seq<u8>>,
    low: Seq<u8>,
    high: Seq<u8>,
    found: Seq<SnapshotView>,
) -> bool {
    exists|scan: Seq<(Seq<u8>, Seq<u8>)>|
        {
            &&& #[trigger] is_scan(held, low, high, scan)
            &&& scan.len() == found.len()
            &&& forall|i: int|
                0 <= i < scan.len() ==> decode_snapshot((#[trigger] scan[i]).1) == Some(found[i])
        }
}

/// A walk that gave snapshots has read every entry in its range: had one
/// of them held no record of a snapshot, the walk had failed.
pub proof fn lemma_walk_reads_all(
    held: Map<Seq<u8>, Seq<u8>>,
    low: Seq<u8>,
    high: Seq<u8>,
    found: Seq<SnapshotView>,
    key: Seq<u8>,
)
    requires
        scanned(held, low, high, found),
        held.dom().contains(key),
        crate::order::within(key, low, high),
    ensures
        exists|i: int| 0 <= i < found.len() && decode_snapshot(held[key]) == Some(#[trigger] found[i]),
{
    let scan = choose|scan: Seq<(Seq<u8>, Seq<u8>)>|
        {
            &&& #[trigger] is_scan(held, low, high, scan)
            &&& scan.len() == found.len()
            &&& forall|i: int|
                0 <= i < scan.len() ==> decode_snapshot((#[trigger] scan[i]).1) == Some(found[i])
        };
    let i = choose|i: int| 0 <= i < scan.len() && (#[trigger] scan[i]).0 == key;
    assert(held[scan[i].0] == scan[i].1);
    assert(decode_snapshot(held[key]) == Some(found[i]));
}

/// A walk gives one list of snapshots only.
pub proof fn lemma_walk_is_unique(
    held: Map<Seq<u8>, Seq<u8>>,
    low: Seq<u8>,
    high: Seq<u8>,
    first: Seq<SnapshotView>,
    second: Seq<SnapshotView>,
)
    requires
        scanned(held, low, high, first),
        scanned(held, low, high, second),
    ensures
        first == second,
{
    let one = choose|scan: Seq<(Seq<u8>, Seq<u8>)>|
        {
            &&& #[trigger] is_scan(held, low, high, scan)
            &&& scan.len() == first.len()
            &&& forall|i: int|
                0 <= i < scan.len() ==> decode_snapshot((#[trigger] scan[i]).1) == Some(first[i])
        };
    let other = choose|scan: Seq<(Seq<u8>, Seq<u8>)>|
        {
            &&& #[trigger] is_scan(held, low, high, scan)
            &&& scan.len() == second.len()
            &&& forall|i: int|
                0 <= i < scan.len() ==> decode_snapshot((#[trigger] scan[i]).1) == Some(second[i])
        };
    crate::store::lemma_scan_is_unique(held, low, high, one, other);
    assert forall|i: int| 0 <= i < first.len() implies first[i] == second[i] by {
        assert(decode_snapshot(one[i].1) == Some(first[i]));
        assert(decode_snapshot(other[i].1) == Some(second[i]));
    }
    assert(first =~= second);
}

/// A failure of the store, with the text that the store gave.
pub fn storage_failure(text: String) -> (failure: Error)
    ensures
        failure matches Error::DatabaseError(told) && told@ == text@,
{
    Error::DatabaseError(text)
}

/// The cache in what sled gave when it was asked to open a store: the cache
/// over the tree that sled opened, holding what that tree holds, or the
/// failure with the text that sled gave.
pub fn store_from(opened: Result<sled::Tree, String>) -> (r: Result<Db, Error>)
    ensures
        match opened {
            Ok(tree) => r matches Ok(db) && db@ == entries(tree),
            Err(text) => r matches Err(Error::DatabaseError(told)) && told@ == text@,
        },
{
    match opened {
        Ok(inner) => Ok(Db { inner }),
        Err(text) => Err(storage_failure(text)),
    }
}

/// What a call of the store that gives nothing back came to: done, or the
/// failure with the text that sled gave.
pub fn done_from(outcome: Result<(), String>) -> (r: Result<(), Error>)
    ensures
        match outcome {
            Ok(()) => r is Ok,
            Err(text) => r matches Err(Error::DatabaseError(told)) && told@ == text@,
        },
{
    match outcome {
        Ok(()) => Ok(()),
        Err(text) => Err(storage_failure(text)),
    }
}

/// The snapshot in what a key was found to hold: none where the key held
/// nothing, and `DatabaseError` where it held no record of a snapshot.
pub fn snapshot_from(found: Option<Vec<u8>>) -> (r: Result<Option<Snapshot>, Error>)
    ensures
        match found {
            None => r matches Ok(None),
            Some(record) => match decode_snapshot(record@) {
                Some(snapshot) => r matches Ok(Some(read)) && read@ == snapshot,
                None => r matches Err(Error::DatabaseError(_)),
            },
        },
{
    match found {
        None => Ok(None),
        Some(record) => match Snapshot::decode(record.as_slice()) {
            Some(snapshot) => Ok(Some(snapshot)),
            None => Err(Error::DatabaseError("could not read the stored rates".to_owned())),
        },
    }
}

/// The key in what the pointer tag was found to hold; `DateNotFound` where
/// the store has no pointer.
pub fn pointer_from(found: Option<Vec<u8>>) -> (r: Result<Vec<u8>, Error>)
    ensures
        match found {
            Some(key) => r matches Ok(read) && read@ == key@,
            None => r matches Err(Error::DateNotFound(tag)) && tag@ == "current"@,
        },
{
    match found {
        Some(key) => Ok(key),
        None => Err(Error::DateNotFound("current".to_owned())),
    }
}

/// The snapshot in what the key of the pointer was found to hold;
/// `DatabaseError` where it held nothing or no record of a snapshot: the
/// pointer of a sound store points at a snapshot.
pub fn target_from(found: Option<Vec<u8>>) -> (r: Result<Snapshot, Error>)
    ensures
        match found {
            Some(record) => match decode_snapshot(record@) {
                Some(snapshot) => r matches Ok(read) && read@ == snapshot,
                None => r matches Err(Error::DatabaseError(_)),
            },
            None => r matches Err(Error::DatabaseError(_)),
        },
{
    match snapshot_from(found) {
        Ok(Some(snapshot)) => Ok(snapshot),
        Ok(None) => Err(
            Error::DatabaseError(
                "could not find `current` reference rates on the database".to_owned(),
            ),
        ),
        Err(failure) => Err(failure),
    }
}

/// The snapshots in what a walk of the store found, in the order of the
/// walk; `DatabaseError` where one of the values is no record of a
/// snapshot.
pub fn snapshots_from(found: &Vec<(Vec<u8>, Vec<u8>)>) -> (r: Result<Vec<Snapshot>, Error>)
    ensures
        match r {
            Ok(snapshots) => {
                &&& snapshots@.len() == found@.len()
                &&& forall|i: int|
                    0 <= i < found@.len() ==> decode_snapshot((#[trigger] found@[i]).1@) == Some(
                        snapshots@[i]@,
                    )
            },
            Err(Error::DatabaseError(_)) => exists|i: int|
                0 <= i < found@.len() && decode_snapshot((#[trigger] found@[i]).1@).is_none(),
            Err(_) => false,
        },
{
    let mut snapshots: Vec<Snapshot> = Vec::with_capacity(found.len());
    let mut i: usize = 0;
    while i < found.len()
        invariant
            i <= found.len(),
            snapshots@.len() == i,
            forall|j: int|
                0 <= j < i ==> decode_snapshot((#[trigger] found@[j]).1@) == Some(snapshots@[j]@),
        decreases found.len() - i,
    {
        match Snapshot::decode(found[i].1.as_slice()) {
            Some(snapshot) => {
                snapshots.push(snapshot);
            },
            None => {
                assert(decode_snapshot(found@[i as int].1@).is_none());
                return Err(Error::DatabaseError("could not get range from db".to_owned()));
            },
        }
        i += 1;
    }
    Ok(snapshots)
}

impl Db {
    /// Opens the store in the directory `path`, and makes an empty one
    /// where there is none. Whether a store can be opened there, and what it
    /// holds then, is for the disk to say: `store_from` says what becomes of
    /// either answer.
    pub fn open(path: &str) -> (r: Result<Db, Error>)
        ensures
            r matches Err(failure) ==> failure is DatabaseError,
    {
        store_from(store_open(path))
    }

    /// Opens the store at `path` where no feed is given; with a feed, makes
    /// the store from it as `bootstrap_new` does.
    pub fn init(path: &str, feed: Option<Vec<Snapshot>>) -> (r: Result<Db, Error>)
        ensures
            match feed {
                None => r matches Err(failure) ==> failure is DatabaseError,
                Some(given) => bootstrapped(snapshot_views(given@), r),
            },
    {
        match feed {
            None => Db::open(path),
            Some(given) => Db::bootstrap_new(path, given),
        }
    }

    /// Makes the store at `path` from the full history, newest day first.
    ///
    /// An empty feed is refused with `EmpyDataset` and a snapshot without a
    /// readable day with `DateParseError`, both before the store is
    /// touched. Then every snapshot is stored with the base currency under
    /// the key of its day, the pointer is set at the first snapshot, and
    /// all is flushed to disk.
    pub fn bootstrap_new(path: &str, feed: Vec<Snapshot>) -> (r: Result<Db, Error>)
        ensures
            bootstrapped(snapshot_views(feed@), r),
    {
        if feed.len() == 0 {
            return Err(Error::EmpyDataset);
        }
        let dates: Vec<CivilDate> = match dates_of(&feed) {
            Ok(dates) => dates,
            Err(failure) => { return Err(failure); },
        };
        let mut db: Db = match Db::open(path) {
            Ok(db) => db,
            Err(failure) => { return Err(failure); },
        };
        let ghost before = db@;
        match db.populate(&feed, &dates) {
            Ok(()) => {
                assert(db@ == after_bootstrap(
                    before,
                    snapshot_views(feed@),
                    feed_dates(snapshot_views(feed@)),
                ));
                Ok(db)
            },
            Err(failure) => Err(failure),
        }
    }

    /// Writes the entries of a feed and sets the pointer at its first
    /// snapshot, then flushes.
    fn populate(&mut self, feed: &Vec<Snapshot>, dates: &Vec<CivilDate>) -> (r: Result<(), Error>)
        requires
            feed@.len() > 0,
            dates@.len() == feed@.len(),
            crate::sync::all_valid(dates@),
        ensures
            match r {
                Ok(()) => final(self)@ == after_bootstrap(
                    old(self)@,
                    snapshot_views(feed@),
                    dates@,
                ),
                Err(failure) => failure is DatabaseError,
            },
    {
        let writes: Vec<Write> = plan_bootstrap(feed, dates);
        match self.write_all(&writes) {
            Ok(()) => {},
            Err(failure) => { return Err(failure); },
        }
        let newest: Vec<u8> = key_for(&dates[0]);
        match self.set_pointer(newest) {
            Ok(()) => {},
            Err(failure) => { return Err(failure); },
        }
        self.flush()
    }

    /// Puts the entries into the store, one after another.
    fn write_all(&mut self, writes: &Vec<Write>) -> (r: Result<(), Error>)
        ensures
            match r {
                Ok(()) => final(self)@ == written(old(self)@, write_views(writes@)),
                Err(failure) => failure is DatabaseError,
            },
    {
        let mut i: usize = 0;
        let ghost views = write_views(writes@);
        while i < writes.len()
            invariant
                i <= writes.len(),
                views == write_views(writes@),
                self@ == written(old(self)@, views.take(i as int)),
            decreases writes.len() - i,
        {
            let record: Vec<u8> = writes[i].record.clone();
            match self.write(writes[i].key.as_slice(), record) {
                Ok(()) => {},
                Err(failure) => { return Err(failure); },
            }
            proof {
                assert(views.take(i + 1).drop_last() =~= views.take(i as int));
                assert(views.take(i + 1).last() == writes@[i as int]@);
            }
            i += 1;
        }
        assert(views.take(i as int) =~= views);
        Ok(())
    }

    /// Sets the pointer at `key`.
    pub fn set_pointer(&mut self, key: Vec<u8>) -> (r: Result<(), Error>)
        ensures
            match r {
                Ok(()) => final(self)@ == old(self)@.insert(pointer_tag(), key@),
                Err(failure) => failure is DatabaseError,
            },
    {
        let tag: Vec<u8> = pointer_key();
        self.write(tag.as_slice(), key)
    }

    /// Puts `value` under `key`, in place of what the key held.
    fn write(&mut self, key: &[u8], value: Vec<u8>) -> (r: Result<(), Error>)
        ensures
            match r {
                Ok(()) => final(self)@ == old(self)@.insert(key@, value@),
                Err(failure) => failure is DatabaseError,
            },
    {
        match store_insert(&mut self.inner, key, value) {
            Ok(()) => Ok(()),
            Err(text) => Err(storage_failure(text)),
        }
    }

    /// What `key` holds.
    fn read(&self, key: &[u8]) -> (r: Result<Option<Vec<u8>>, Error>)
        ensures
            match r {
                Ok(Some(value)) => self@.dom().contains(key@) && self@[key@] == value@,
                Ok(None) => !self@.dom().contains(key@),
                Err(failure) => failure is DatabaseError,
            },
    {
        match store_get(&self.inner, key) {
            Ok(found) => Ok(found),
            Err(text) => Err(storage_failure(text)),
        }
    }

    /// Waits until all that was written is on disk. The store holds what
    /// it held; whether the disk took it is for sled to say: `done_from`
    /// says what becomes of either answer.
    pub fn flush(&self) -> (r: Result<(), Error>)
        ensures
            r matches Err(failure) ==> failure is DatabaseError,
    {
        done_from(store_flush(&self.inner))
    }

    /// Stores the record of `value` under `key`, in place of what the key
    /// held.
    pub fn put(&mut self, key: &[u8], value: &Snapshot) -> (r: Result<(), Error>)
        ensures
            match r {
                Ok(()) => final(self)@ == old(self)@.insert(key@, encode_snapshot(value@)),
                Err(failure) => failure is DatabaseError,
            },
    {
        let record: Vec<u8> = value.encode();
        self.write(key, record)
    }

    /// The snapshot under `key`; none where the key holds nothing.
    pub fn get(&self, key: &[u8]) -> (r: Result<Option<Snapshot>, Error>)
        ensures
            match r {
                Ok(Some(snapshot)) => snapshot_at(self@, key@) == Some(snapshot@),
                Ok(None) => !self@.dom().contains(key@),
                Err(failure) => failure is DatabaseError,
            },
    {
        match self.read(key) {
            Ok(found) => snapshot_from(found),
            Err(failure) => Err(failure),
        }
    }

    /// The snapshot of the newest day: the one at which the pointer stands.
    ///
    /// `DateNotFound` where the store has no pointer; `DatabaseError` where
    /// the pointer points at nothing readable, or the store fails.
    pub fn get_current_rates(&self) -> (r: Result<Snapshot, Error>)
        ensures
            match r {
                Ok(snapshot) => current_snapshot(self@) == Some(snapshot@),
                Err(Error::DateNotFound(tag)) => !self@.dom().contains(pointer_tag()) && tag@
                    == "current"@,
                Err(Error::DatabaseError(_)) => true,
                Err(_) => false,
            },
    {
        let tag: Vec<u8> = pointer_key();
        let found: Option<Vec<u8>> = match self.read(tag.as_slice()) {
            Ok(found) => found,
            Err(failure) => { return Err(failure); },
        };
        let key: Vec<u8> = match pointer_from(found) {
            Ok(key) => key,
            Err(failure) => { return Err(failure); },
        };
        match self.read(key.as_slice()) {
            Ok(found) => target_from(found),
            Err(failure) => Err(failure),
        }
    }

    /// The snapshot of the day written in `day`; none where the store has
    /// none of that day, which is no error.
    pub fn get_day_rates(&self, day: &str) -> (r: Result<Option<Snapshot>, Error>)
        ensures
            match r {
                Ok(Some(snapshot)) => text_key(day@) matches Some(key) && snapshot_at(self@, key)
                    == Some(snapshot@),
                Ok(None) => text_key(day@) matches Some(key) && !self@.dom().contains(key),
                Err(Error::DateParseError(text)) => text_key(day@).is_none() && text@ == day@,
                Err(Error::DatabaseError(_)) => text_key(day@).is_some(),
                Err(_) => false,
            },
    {
        let key: Vec<u8> = match crate::key::date_as_key(day) {
            Ok(key) => key,
            Err(failure) => { return Err(failure); },
        };
        self.get(key.as_slice())
    }

    /// The snapshots of the days from `start_at` to `end_at`, both
    /// included, in the order of their keys. One stored value that is no
    /// record of a snapshot fails the whole call.
    pub fn get_range_rates(&self, start_at: CivilDate, end_at: CivilDate) -> (r: Result<
        Vec<Snapshot>,
        Error,
    >)
        requires
            start_at.wf(),
            end_at.wf(),
        ensures
            match r {
                Ok(snapshots) => scanned(
                    self@,
                    key_bytes(start_at),
                    key_bytes(end_at),
                    snapshot_views(snapshots@),
                ),
                Err(failure) => failure is DatabaseError,
            },
    {
        let low: Vec<u8> = key_for(&start_at);
        let high: Vec<u8> = key_for(&end_at);
        let found: Vec<(Vec<u8>, Vec<u8>)> = match store_range(
            &self.inner,
            low.as_slice(),
            high.as_slice(),
        ) {
            Ok(found) => found,
            Err(text) => { return Err(storage_failure(text)); },
        };
        match snapshots_from(&found) {
            Ok(snapshots) => {
                proof {
                    let scan = pair_views(found@);
                    assert(is_scan(self@, key_bytes(start_at), key_bytes(end_at), scan));
                    assert forall|i: int| 0 <= i < scan.len() implies decode_snapshot(
                        (#[trigger] scan[i]).1,
                    ) == Some(snapshot_views(snapshots@)[i]) by {
                        assert(scan[i].1 == found@[i].1@);
                    }
                }
                Ok(snapshots)
            },
            Err(failure) => Err(failure),
        }
    }

    /// The newest day of the store. A store without a pointer, or with a
    /// pointer at nothing readable or at a snapshot without a readable day,
    /// is damaged: `DatabaseError`.
    pub fn newest_day(&self) -> (r: Result<CivilDate, Error>)
        ensures
            match r {
                Ok(day) => current_date(self@) == Some(day) && day.wf(),
                Err(failure) => failure is DatabaseError,
            },
    {
        let current: Snapshot = match self.get_current_rates() {
            Ok(snapshot) => snapshot,
            Err(Error::DatabaseError(text)) => { return Err(Error::DatabaseError(text)); },
            Err(_) => {
                return Err(
                    Error::DatabaseError(
                        "could not find `current` key on the database".to_owned(),
                    ),
                );
            },
        };
        match CivilDate::parse(current.value.as_str()) {
            Some(day) => Ok(day),
            None => Err(Error::DatabaseError("the stored rates name no day".to_owned())),
        }
    }

    /// Takes the daily feed and says what brings the store up to date.
    ///
    /// Where the store is one day behind, the daily snapshot is stored at
    /// once and the answer is `Daily`. Where it is further behind, nothing
    /// is written: the answer names the feed to fetch and to hand to
    /// `ingest`. A daily snapshot of the newest day of the store changes
    /// nothing, and one of an earlier day is refused with
    /// `InvalidDateRange`.
    pub fn update(&mut self, daily: Snapshot) -> (r: Result<Refresh, Error>)
        ensures
            match r {
                Ok(step) => {
                    &&& parsed_date(daily@.value) matches Some(fetched)
                    &&& current_date(old(self)@) matches Some(stored)
                    &&& refresh_for(fetched, stored) == Some(step)
                    &&& final(self)@ == if step == Refresh::Daily {
                        after_update(old(self)@, seq![daily@], seq![fetched], stored)
                    } else {
                        old(self)@
                    }
                },
                Err(Error::DateParseError(text)) => {
                    &&& parsed_date(daily@.value).is_none()
                    &&& text@ == daily@.value
                    &&& final(self)@ == old(self)@
                },
                Err(Error::InvalidDateRange) => {
                    &&& parsed_date(daily@.value) matches Some(fetched)
                    &&& current_date(old(self)@) matches Some(stored)
                    &&& refresh_for(fetched, stored).is_none()
                    &&& final(self)@ == old(self)@
                },
                Err(Error::DatabaseError(_)) => {
                    &&& parsed_date(daily@.value).is_some()
                    &&& current_date(old(self)@).is_none() ==> final(self)@ == old(self)@
                },
                Err(_) => false,
            },
    {
        let fetched: CivilDate = match CivilDate::parse(daily.value.as_str()) {
            Some(day) => day,
            None => { return Err(Error::DateParseError(daily.value)); },
        };
        let stored: CivilDate = match self.newest_day() {
            Ok(day) => day,
            Err(failure) => { return Err(failure); },
        };
        let step: Refresh = match plan_refresh(&fetched, &stored) {
            Ok(step) => step,
            Err(failure) => { return Err(failure); },
        };
        if step == Refresh::Daily {
            let mut feed: Vec<Snapshot> = Vec::with_capacity(1);
            feed.push(daily);
            proof {
                assert(snapshot_views(feed@) =~= seq![daily@]);
                assert(feed_dates(seq![daily@]) =~= seq![fetched]);
            }
            match self.ingest(feed) {
                Ok(()) => Ok(step),
                Err(Error::DatabaseError(text)) => Err(Error::DatabaseError(text)),
                Err(_) => {
                    assert(all_dated(seq![daily@]));
                    vstd::pervasive::unreached()
                },
            }
        } else {
            Ok(step)
        }
    }

    /// Stores from a feed every snapshot of a later day than the newest of
    /// the store, with the base currency, and moves the pointer to the
    /// latest of them; then flushes.
    ///
    /// A snapshot without a readable day is refused with `DateParseError`
    /// before the store is touched. Snapshots of the newest day of the
    /// store and of earlier days are passed over.
    pub fn ingest(&mut self, feed: Vec<Snapshot>) -> (r: Result<(), Error>)
        ensures
            match r {
                Ok(()) => {
                    &&& all_dated(snapshot_views(feed@))
                    &&& current_date(old(self)@) matches Some(current)
                    &&& final(self)@ == after_update(
                        old(self)@,
                        snapshot_views(feed@),
                        feed_dates(snapshot_views(feed@)),
                        current,
                    )
                },
                Err(Error::DateParseError(text)) => {
                    &&& exists|at: int|
                        #[trigger] first_undated(snapshot_views(feed@), at) && text@
                            == feed@[at]@.value
                    &&& final(self)@ == old(self)@
                },
                Err(Error::DatabaseError(_)) => {
                    &&& all_dated(snapshot_views(feed@))
                    &&& current_date(old(self)@).is_none() ==> final(self)@ == old(self)@
                },
                Err(_) => false,
            },
    {
        let dates: Vec<CivilDate> = match dates_of(&feed) {
            Ok(dates) => dates,
            Err(failure) => { return Err(failure); },
        };
        let current: CivilDate = match self.newest_day() {
            Ok(day) => day,
            Err(failure) => { return Err(failure); },
        };
        let (writes, newest) = plan_update(&feed, &dates, &current);
        match newest {
            Some(day) => {
                match self.write_all(&writes) {
                    Ok(()) => {},
                    Err(failure) => { return Err(failure); },
                }
                match self.set_pointer(key_for(&day)) {
                    Ok(()) => {},
                    Err(failure) => { return Err(failure); },
                }
                self.flush()
            },
            None => Ok(()),
        }
    }
}

/// What `bootstrap_new` hands back for a feed: the store with the feed in
/// it, or why there is none.
pub open spec fn bootstrapped(feed: Seq<SnapshotView>, r: Result<Db, Error>) -> bool {
    match r {
        Ok(db) => {
            &&& feed.len() > 0
            &&& all_dated(feed)
            &&& exists|before: Map<Seq<u8>, Seq<u8>>|
                db@ == #[trigger] after_bootstrap(before, feed, feed_dates(feed))
        },
        Err(Error::EmpyDataset) => feed.len() == 0,
        Err(Error::DateParseError(text)) => {
            &&& feed.len() > 0
            &&& exists|at: int| #[trigger] first_undated(feed, at) && text@ == feed[at].value
        },
        Err(Error::DatabaseError(_)) => feed.len() > 0 && all_dated(feed),
        Err(_) => false,
    }
}

} // verus!

//! What bootstrap and update decide and write, as functions of plain
//! values, and what the store holds afterwards.

use crate::calendar::parsed_date;
use crate::calendar::CivilDate;
use crate::codec::encodable;
use crate::codec::encode_snapshot;
use crate::errors::Error;
use crate::key::key_bytes;
use crate::key::key_for;
use crate::snapshot::with_base;
use crate::snapshot::Snapshot;
use crate::snapshot::SnapshotView;
use vstd::prelude::*;

verus! {

/// The longest gap in days that the feed of the last ninety days covers.
pub const WINDOW_DAYS: i64 = 90;

/// What brings the store up to date.
#[derive(Clone, Copy, Debug, PartialEq, Eq, Structural)]
pub enum Refresh {
    /// The store holds the day of the daily feed already.
    UpToDate,
    /// The daily feed itself: the store is one day behind.
    Daily,
    /// The feed of the last ninety days.
    Last90Days,
    /// The full history: the store is more than ninety days behind.
    Historical,
}

/// The refresh for a store whose newest day is `stored`, when the daily feed
/// is of the day `fetched`; `None` where the feed is older than the store.
pub open spec fn refresh_for(fetched: CivilDate, stored: CivilDate) -> Option<Refresh> {
    let gap = fetched.epoch_day() - stored.epoch_day();
    if gap < 0 {
        None
    } else if gap == 0 {
        Some(Refresh::UpToDate)
    } else if gap <= 1 {
        Some(Refresh::Daily)
    } else if gap <= 90 {
        Some(Refresh::Last90Days)
    } else {
        Some(Refresh::Historical)
    }
}

/// Decides by the gap between the day of the daily feed and the newest day
/// of the store which feed to take. A feed older than the store is refused
/// with `InvalidDateRange`: the store never goes back.
pub fn plan_refresh(fetched: &CivilDate, stored: &CivilDate) -> (r: Result<Refresh, Error>)
    requires
        fetched.wf(),
        stored.wf(),
    ensures
        match refresh_for(*fetched, *stored) {
            Some(step) => r matches Ok(planned) && planned == step,
            None => r matches Err(Error::InvalidDateRange),
        },
{
    let gap: i64 = fetched.days_since(stored);
    if gap < 0 {
        Err(Error::InvalidDateRange)
    } else if gap == 0 {
        Ok(Refresh::UpToDate)
    } else if gap <= 1 {
        Ok(Refresh::Daily)
    } else if gap <= WINDOW_DAYS {
        Ok(Refresh::Last90Days)
    } else {
        Ok(Refresh::Historical)
    }
}

/// The snapshots as the contracts see them.
pub open spec fn snapshot_views(feed: Seq<Snapshot>) -> Seq<SnapshotView> {
    Seq::new(feed.len(), |i: int| feed[i]@)
}

/// Every snapshot of the feed names a day that chrono can read.
pub open spec fn all_dated(feed: Seq<SnapshotView>) -> bool {
    forall|i: int| 0 <= i < feed.len() ==> parsed_date((#[trigger] feed[i]).value).is_some()
}

/// The days of the snapshots of a feed, one for one, as chrono reads them.
pub open spec fn feed_dates(feed: Seq<SnapshotView>) -> Seq<CivilDate> {
    Seq::new(feed.len(), |i: int| parsed_date(feed[i].value).unwrap())
}

/// `at` is the first place of the feed whose snapshot names no day.
pub open spec fn first_undated(feed: Seq<SnapshotView>, at: int) -> bool {
    &&& 0 <= at < feed.len()
    &&& parsed_date(feed[at].value).is_none()
    &&& forall|j: int| 0 <= j < at ==> parsed_date((#[trigger] feed[j]).value).is_some()
}

/// Every day of the list exists in the calendar.
pub open spec fn all_valid(dates: Seq<CivilDate>) -> bool {
    forall|i: int| 0 <= i < dates.len() ==> (#[trigger] dates[i]).wf()
}

/// The days of the snapshots of a feed. The first snapshot whose text holds
/// no date ends the reading: its text comes back in `DateParseError`.
pub fn dates_of(feed: &Vec<Snapshot>) -> (r: Result<Vec<CivilDate>, Error>)
    ensures
        match r {
            Ok(dates) => {
                &&& all_dated(snapshot_views(feed@))
                &&& dates@ == feed_dates(snapshot_views(feed@))
                &&& all_valid(dates@)
            },
            Err(Error::DateParseError(text)) => exists|at: int|
                #[trigger] first_undated(snapshot_views(feed@), at) && text@ == feed@[at]@.value,
            Err(_) => false,
        },
{
    let mut dates: Vec<CivilDate> = Vec::with_capacity(feed.len());
    let mut i: usize = 0;
    let ghost views = snapshot_views(feed@);
    while i < feed.len()
        invariant
            i <= feed.len(),
            views == snapshot_views(feed@),
            dates@.len() == i,
            forall|j: int| 0 <= j < i ==> parsed_date((#[trigger] views[j]).value) == Some(dates@[j]),
            forall|j: int| 0 <= j < i ==> (#[trigger] dates@[j]).wf(),
        decreases feed.len() - i,
    {
        match CivilDate::parse(feed[i].value.as_str()) {
            Some(date) => {
                dates.push(date);
            },
            None => {
                let text: String = feed[i].value.clone();
                assert(first_undated(views, i as int));
                return Err(Error::DateParseError(text));
            },
        }
        i += 1;
    }
    assert(dates@ =~= feed_dates(views));
    Ok(dates)
}

/// The tag under which the store keeps the key of its newest snapshot:
/// the bytes of `current`.
pub open spec fn pointer_tag() -> Seq<u8> {
    seq![99u8, 117u8, 114u8, 114u8, 101u8, 110u8, 116u8]
}

/// The record under which a snapshot of the feed is stored: the base
/// currency is added to it.
pub open spec fn stored_record(snapshot: SnapshotView) -> Seq<u8> {
    encode_snapshot(with_base(snapshot))
}

/// What a store holds after `writes` were put into it one after another:
/// where a key comes twice, the later write stays.
pub open spec fn written(held: Map<Seq<u8>, Seq<u8>>, writes: Seq<(Seq<u8>, Seq<u8>)>) -> Map<
    Seq<u8>,
    Seq<u8>,
>
    decreases writes.len(),
{
    if writes.len() == 0 {
        held
    } else {
        written(held, writes.drop_last()).insert(writes.last().0, writes.last().1)
    }
}

/// The entries of a whole feed, in the order of the feed.
pub open spec fn feed_entries(feed: Seq<SnapshotView>, dates: Seq<CivilDate>) -> Seq<
    (Seq<u8>, Seq<u8>),
> {
    Seq::new(feed.len(), |i: int| (key_bytes(dates[i]), stored_record(feed[i])))
}

/// The entries of those snapshots of a feed that are of a later day than
/// `current`, in the order of the feed.
pub open spec fn newer_entries(
    feed: Seq<SnapshotView>,
    dates: Seq<CivilDate>,
    current: CivilDate,
) -> Seq<(Seq<u8>, Seq<u8>)>
    decreases feed.len(),
{
    if feed.len() == 0 || dates.len() == 0 {
        Seq::empty()
    } else {
        let before = newer_entries(feed.drop_last(), dates.drop_last(), current);
        if current.precedes(&dates.last()) {
            before.push((key_bytes(dates.last()), stored_record(feed.last())))
        } else {
            before
        }
    }
}

/// The latest of those days that are later than `current`; `None` where no
/// day is.
pub open spec fn newest_after(dates: Seq<CivilDate>, current: CivilDate) -> Option<CivilDate>
    decreases dates.len(),
{
    if dates.len() == 0 {
        None
    } else {
        let before = newest_after(dates.drop_last(), current);
        let last = dates.last();
        let latest = match before {
            Some(date) => date,
            None => current,
        };
        if latest.precedes(&last) {
            Some(last)
        } else {
            before
        }
    }
}

/// What a store holds after a feed was put into it at bootstrap: every
/// snapshot of the feed under the key of its day, and the pointer at the
/// first snapshot.
pub open spec fn after_bootstrap(
    held: Map<Seq<u8>, Seq<u8>>,
    feed: Seq<SnapshotView>,
    dates: Seq<CivilDate>,
) -> Map<Seq<u8>, Seq<u8>> {
    written(held, feed_entries(feed, dates)).insert(pointer_tag(), key_bytes(dates[0]))
}

/// What a store whose newest day is `current` holds after an update from a
/// feed: the snapshots of later days under the keys of their days, and the
/// pointer at the latest of them. Where the feed has no later day, the
/// store holds what it held.
pub open spec fn after_update(
    held: Map<Seq<u8>, Seq<u8>>,
    feed: Seq<SnapshotView>,
    dates: Seq<CivilDate>,
    current: CivilDate,
) -> Map<Seq<u8>, Seq<u8>> {
    match newest_after(dates, current) {
        Some(newest) => written(held, newer_entries(feed, dates, current)).insert(
            pointer_tag(),
            key_bytes(newest),
        ),
        None => held,
    }
}

/// What the store holds under `key`, read as a snapshot.
pub open spec fn snapshot_at(held: Map<Seq<u8>, Seq<u8>>, key: Seq<u8>) -> Option<SnapshotView> {
    if held.dom().contains(key) {
        crate::codec::decode_snapshot(held[key])
    } else {
        None
    }
}

/// The snapshot at which the pointer of the store stands; `None` where
/// the store has no pointer or nothing readable where it points.
pub open spec fn current_snapshot(held: Map<Seq<u8>, Seq<u8>>) -> Option<SnapshotView> {
    if held.dom().contains(pointer_tag()) {
        snapshot_at(held, held[pointer_tag()])
    } else {
        None
    }
}

/// The newest day of the store: the day of the snapshot at which its
/// pointer stands.
pub open spec fn current_date(held: Map<Seq<u8>, Seq<u8>>) -> Option<CivilDate> {
    match current_snapshot(held) {
        Some(snapshot) => parsed_date(snapshot.value),
        None => None,
    }
}

/// An entry to write: a key and the record to store under it.
#[derive(Clone, Debug, PartialEq, Eq)]
pub struct Write {
    pub key: Vec<u8>,
    pub record: Vec<u8>,
}

impl View for Write {
    type V = (Seq<u8>, Seq<u8>);

    open spec fn view(&self) -> (Seq<u8>, Seq<u8>) {
        (self.key@, self.record@)
    }
}

/// The entries as the contracts see them.
pub open spec fn write_views(writes: Seq<Write>) -> Seq<(Seq<u8>, Seq<u8>)> {
    Seq::new(writes.len(), |i: int| writes[i]@)
}

/// The bytes of the pointer tag.
pub fn pointer_key() -> (tag: Vec<u8>)
    ensures
        tag@ == pointer_tag(),
{
    let mut tag: Vec<u8> = Vec::with_capacity(7);
    tag.push(99);
    tag.push(117);
    tag.push(114);
    tag.push(114);
    tag.push(101);
    tag.push(110);
    tag.push(116);
    assert(tag@ =~= pointer_tag());
    tag
}

/// The record of a snapshot of the feed as it is stored, with the base
/// currency.
pub fn record_for(snapshot: &Snapshot) -> (record: Vec<u8>)
    ensures
        record@ == stored_record(snapshot@),
        encodable(with_base(snapshot@)),
{
    let mut stored: Snapshot = snapshot.duplicate();
    stored.add_base();
    stored.encode()
}

/// The entries that bootstrap writes for a feed whose days are `dates`.
pub fn plan_bootstrap(feed: &Vec<Snapshot>, dates: &Vec<CivilDate>) -> (writes: Vec<Write>)
    requires
        dates@.len() == feed@.len(),
        all_valid(dates@),
    ensures
        write_views(writes@) == feed_entries(snapshot_views(feed@), dates@),
        forall|i: int| 0 <= i < feed@.len() ==> encodable(with_base(#[trigger] feed@[i]@)),
{
    let mut writes: Vec<Write> = Vec::with_capacity(feed.len());
    let mut i: usize = 0;
    while i < feed.len()
        invariant
            i <= feed.len(),
            dates@.len() == feed@.len(),
            all_valid(dates@),
            writes@.len() == i,
            forall|j: int|
                0 <= j < i ==> (#[trigger] writes@[j])@ == (
                    key_bytes(dates@[j]),
                    stored_record(feed@[j]@),
                ),
            forall|j: int| 0 <= j < i ==> encodable(with_base(#[trigger] feed@[j]@)),
        decreases feed.len() - i,
    {
        let key: Vec<u8> = key_for(&dates[i]);
        let record: Vec<u8> = record_for(&feed[i]);
        writes.push(Write { key, record });
        i += 1;
    }
    assert(write_views(writes@) =~= feed_entries(snapshot_views(feed@), dates@));
    writes
}

/// The entries that an update writes for a feed whose days are `dates`
/// into a store whose newest day is `current`, and the day at which the
/// pointer stands afterwards, where it moves.
pub fn plan_update(feed: &Vec<Snapshot>, dates: &Vec<CivilDate>, current: &CivilDate) -> (r: (
    Vec<Write>,
    Option<CivilDate>,
))
    requires
        dates@.len() == feed@.len(),
        all_valid(dates@),
    ensures
        write_views(r.0@) == newer_entries(snapshot_views(feed@), dates@, *current),
        r.1 == newest_after(dates@, *current),
        r.1 matches Some(day) ==> day.wf(),
        forall|i: int|
            0 <= i < feed@.len() && current.precedes(&dates@[i]) ==> encodable(
                with_base(#[trigger] feed@[i]@),
            ),
{
    let mut writes: Vec<Write> = Vec::new();
    let mut newest: Option<CivilDate> = None;
    let mut i: usize = 0;
    let ghost views = snapshot_views(feed@);
    while i < feed.len()
        invariant
            i <= feed.len(),
            dates@.len() == feed@.len(),
            views == snapshot_views(feed@),
            all_valid(dates@),
            write_views(writes@) == newer_entries(
                views.take(i as int),
                dates@.take(i as int),
                *current,
            ),
            newest == newest_after(dates@.take(i as int), *current),
            newest matches Some(day) ==> day.wf(),
            forall|j: int|
                0 <= j < i && current.precedes(&dates@[j]) ==> encodable(
                    with_base(#[trigger] feed@[j]@),
                ),
        decreases feed.len() - i,
    {
        let date: CivilDate = dates[i];
        proof {
            assert(views.take(i + 1).drop_last() =~= views.take(i as int));
            assert(dates@.take(i + 1).drop_last() =~= dates@.take(i as int));
            assert(views.take(i + 1).last() == feed@[i as int]@);
            assert(dates@.take(i + 1).last() == date);
        }
        if current.is_before(&date) {
            let key: Vec<u8> = key_for(&date);
            let record: Vec<u8> = record_for(&feed[i]);
            let ghost before = write_views(writes@);
            writes.push(Write { key, record });
            assert(write_views(writes@) =~= before.push(
                (key_bytes(date), stored_record(feed@[i as int]@)),
            ));
        }
        let latest: CivilDate = match newest {
            Some(found) => found,
            None => *current,
        };
        if latest.is_before(&date) {
            newest = Some(date);
        }
        i += 1;
    }
    proof {
        assert(views.take(i as int) =~= views);
        assert(dates@.take(i as int) =~= dates@);
    }
    (writes, newest)
}

} // verus!

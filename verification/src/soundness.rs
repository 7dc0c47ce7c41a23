//! What holds of every store that bootstrap made and updates kept: its
//! pointer stands at a snapshot, no snapshot is of a later day, and every
//! snapshot names the base currency once.

use crate::calendar::CivilDate;
use crate::calendar::parsed_date;
use crate::codec::decode_snapshot;
use crate::codec::encodable;
use crate::codec::lemma_decode_encode;
use crate::db::scanned;
use crate::key::key_bytes;
use crate::key::lemma_first_byte;
use crate::key::lemma_key_distinguishes;
use crate::key::lemma_key_order;
use crate::key::lemma_key_order_back;
use crate::order::lemma_lex_lt_asymmetric;
use crate::order::lex_le;
use crate::order::lex_lt;
use crate::order::parts_below;
use crate::order::within;
use crate::snapshot::has_one_base;
use crate::snapshot::lemma_with_base_has_one_base;
use crate::snapshot::names_no_base;
use crate::snapshot::SnapshotView;
use crate::snapshot::with_base;
use crate::store::is_scan;
use crate::sync::after_bootstrap;
use crate::sync::after_update;
use crate::sync::all_dated;
use crate::sync::all_valid;
use crate::sync::current_date;
use crate::sync::current_snapshot;
use crate::sync::feed_dates;
use crate::sync::feed_entries;
use crate::sync::newer_entries;
use crate::sync::newest_after;
use crate::sync::pointer_tag;
use crate::sync::Refresh;
use crate::sync::refresh_for;
use crate::sync::snapshot_at;
use crate::sync::stored_record;
use crate::sync::written;
use vstd::prelude::*;

verus! {

/// A key that no write touches holds what it held.
pub proof fn lemma_written_keeps(
    held: Map<Seq<u8>, Seq<u8>>,
    writes: Seq<(Seq<u8>, Seq<u8>)>,
    key: Seq<u8>,
)
    requires
        forall|i: int| 0 <= i < writes.len() ==> (#[trigger] writes[i]).0 != key,
    ensures
        written(held, writes).dom().contains(key) == held.dom().contains(key),
        held.dom().contains(key) ==> written(held, writes)[key] == held[key],
    decreases writes.len(),
{
    if writes.len() > 0 {
        let earlier = writes.drop_last();
        assert forall|i: int| 0 <= i < earlier.len() implies (#[trigger] earlier[i]).0 != key by {
            assert(earlier[i] == writes[i]);
        }
        lemma_written_keeps(held, earlier, key);
        assert(writes.last() == writes[writes.len() - 1]);
    }
}

/// A key that some write touches holds what one of its writes put there.
pub proof fn lemma_written_holds(
    held: Map<Seq<u8>, Seq<u8>>,
    writes: Seq<(Seq<u8>, Seq<u8>)>,
    key: Seq<u8>,
) -> (at: int)
    requires
        exists|i: int| 0 <= i < writes.len() && (#[trigger] writes[i]).0 == key,
    ensures
        0 <= at < writes.len(),
        writes[at].0 == key,
        written(held, writes).dom().contains(key),
        written(held, writes)[key] == writes[at].1,
    decreases writes.len(),
{
    let last = writes.len() - 1;
    if writes[last].0 == key {
        last
    } else {
        let earlier = writes.drop_last();
        let i = choose|i: int| 0 <= i < writes.len() && (#[trigger] writes[i]).0 == key;
        assert(earlier[i] == writes[i]);
        let at = lemma_written_holds(held, earlier, key);
        assert(earlier[at] == writes[at]);
        at
    }
}

/// Every entry that an update writes is the entry of a snapshot of the
/// feed of a later day than `current`.
pub proof fn lemma_newer_entry_source(
    feed: Seq<SnapshotView>,
    dates: Seq<CivilDate>,
    current: CivilDate,
    at: int,
) -> (from: int)
    requires
        feed.len() == dates.len(),
        0 <= at < newer_entries(feed, dates, current).len(),
    ensures
        0 <= from < feed.len(),
        current.precedes(&dates[from]),
        newer_entries(feed, dates, current)[at] == (
            key_bytes(dates[from]),
            stored_record(feed[from]),
        ),
    decreases feed.len(),
{
    let before = newer_entries(feed.drop_last(), dates.drop_last(), current);
    if at < before.len() {
        let from = lemma_newer_entry_source(feed.drop_last(), dates.drop_last(), current, at);
        assert(feed.drop_last()[from] == feed[from]);
        assert(dates.drop_last()[from] == dates[from]);
        from
    } else {
        feed.len() - 1
    }
}

/// Every snapshot of the feed of a later day than `current` has its entry
/// among those that an update writes.
pub proof fn lemma_newer_entry_written(
    feed: Seq<SnapshotView>,
    dates: Seq<CivilDate>,
    current: CivilDate,
    from: int,
) -> (at: int)
    requires
        feed.len() == dates.len(),
        0 <= from < feed.len(),
        current.precedes(&dates[from]),
    ensures
        0 <= at < newer_entries(feed, dates, current).len(),
        newer_entries(feed, dates, current)[at] == (
            key_bytes(dates[from]),
            stored_record(feed[from]),
        ),
    decreases feed.len(),
{
    let before = newer_entries(feed.drop_last(), dates.drop_last(), current);
    if from == feed.len() - 1 {
        before.len() as int
    } else {
        assert(feed.drop_last()[from] == feed[from]);
        assert(dates.drop_last()[from] == dates[from]);
        lemma_newer_entry_written(feed.drop_last(), dates.drop_last(), current, from)
    }
}

/// The day at which the pointer stands after an update is a day of the
/// feed, later than `current`, and no day of the feed is later than it.
/// Where the pointer stays, no day of the feed is later than `current`.
pub proof fn lemma_newest_after(dates: Seq<CivilDate>, current: CivilDate)
    ensures
        match newest_after(dates, current) {
            Some(newest) => {
                &&& current.precedes(&newest)
                &&& exists|i: int| 0 <= i < dates.len() && #[trigger] dates[i] == newest
                &&& forall|i: int| 0 <= i < dates.len() ==> !newest.precedes(#[trigger] &dates[i])
            },
            None => forall|i: int| 0 <= i < dates.len() ==> !current.precedes(#[trigger] &dates[i]),
        },
    decreases dates.len(),
{
    if dates.len() > 0 {
        let earlier = dates.drop_last();
        lemma_newest_after(earlier, current);
        let last = dates[dates.len() - 1];
        assert forall|i: int| 0 <= i < earlier.len() implies earlier[i] == dates[i] by {}
        match newest_after(dates, current) {
            Some(newest) => {
                if newest == last {
                    assert(dates[dates.len() - 1] == newest);
                } else {
                    let i = choose|i: int| 0 <= i < earlier.len() && #[trigger] earlier[i] == newest;
                    assert(dates[i] == newest);
                }
                assert forall|i: int| 0 <= i < dates.len() implies !newest.precedes(
                    #[trigger] &dates[i],
                ) by {
                    if i < earlier.len() {
                        assert(earlier[i] == dates[i]);
                    }
                }
            },
            None => {
                assert forall|i: int| 0 <= i < dates.len() implies !current.precedes(
                    #[trigger] &dates[i],
                ) by {
                    if i < earlier.len() {
                        assert(earlier[i] == dates[i]);
                    }
                }
            },
        }
    }
}

/// The entry under `key` is sound in a store whose newest day is
/// `current`: it is the record of a snapshot that names the base currency
/// once, the key is the key of its day, and its day is not later than
/// `current`.
pub open spec fn sound_entry(held: Map<Seq<u8>, Seq<u8>>, key: Seq<u8>, current: CivilDate) -> bool {
    &&& snapshot_at(held, key) matches Some(snapshot)
    &&& has_one_base(snapshot)
    &&& parsed_date(snapshot.value) matches Some(day)
    &&& day.wf()
    &&& key == key_bytes(day)
    &&& !current.precedes(&day)
}

/// The store is sound: its pointer stands at a snapshot with a readable
/// day, and every other entry is sound.
pub open spec fn sound(held: Map<Seq<u8>, Seq<u8>>) -> bool {
    &&& current_date(held) matches Some(current)
    &&& current.wf()
    &&& forall|key: Seq<u8>|
        #[trigger] held.dom().contains(key) && key != pointer_tag() ==> sound_entry(
            held,
            key,
            current,
        )
}

/// The feed can be written: its snapshots name days and can be written
/// down with the base currency.
pub open spec fn writable(feed: Seq<SnapshotView>) -> bool {
    &&& all_dated(feed)
    &&& all_valid(feed_dates(feed))
    &&& forall|i: int| 0 <= i < feed.len() ==> encodable(with_base(#[trigger] feed[i]))
}

/// The feed can be stored: it can be written, and it leaves the base
/// currency to the store.
pub open spec fn storable(feed: Seq<SnapshotView>) -> bool {
    &&& writable(feed)
    &&& forall|i: int| 0 <= i < feed.len() ==> names_no_base(#[trigger] feed[i])
}

/// No key of a day is the pointer tag: a key has eight bytes, the tag seven.
pub proof fn lemma_key_is_no_tag(day: CivilDate)
    ensures
        key_bytes(day) != pointer_tag(),
        key_bytes(day).len() == 8,
{
    assert(key_bytes(day).len() == 8);
    assert(pointer_tag().len() == 7);
}

/// The tag itself holds no record: the pointer of a store whose newest day
/// can be read does not point at itself.
proof fn lemma_tag_is_no_record()
    ensures
        decode_snapshot(pointer_tag()).is_none(),
{
    assert(pointer_tag().len() == 7);
}

/// What the record of a snapshot of a writable feed reads back as.
proof fn lemma_record_reads_back(feed: Seq<SnapshotView>, at: int)
    requires
        writable(feed),
        0 <= at < feed.len(),
    ensures
        decode_snapshot(stored_record(feed[at])) == Some(with_base(feed[at])),
        parsed_date(with_base(feed[at]).value) == Some(feed_dates(feed)[at]),
        feed_dates(feed)[at].wf(),
{
    lemma_decode_encode(with_base(feed[at]));
}

/// After an update from a writable feed, a key that the update wrote holds
/// the snapshot of a day of the feed, later than `current`, and is the key
/// of that day.
proof fn lemma_updated_entry(
    held: Map<Seq<u8>, Seq<u8>>,
    feed: Seq<SnapshotView>,
    current: CivilDate,
    newest: CivilDate,
    key: Seq<u8>,
) -> (from: int)
    requires
        writable(feed),
        newest_after(feed_dates(feed), current) == Some(newest),
        exists|i: int|
            0 <= i < newer_entries(feed, feed_dates(feed), current).len() && (
            #[trigger] newer_entries(feed, feed_dates(feed), current)[i]).0 == key,
    ensures
        0 <= from < feed.len(),
        key != pointer_tag(),
        key == key_bytes(feed_dates(feed)[from]),
        current.precedes(&feed_dates(feed)[from]),
        !newest.precedes(&feed_dates(feed)[from]),
        snapshot_at(after_update(held, feed, feed_dates(feed), current), key) == Some(
            with_base(feed[from]),
        ),
{
    let dates = feed_dates(feed);
    let writes = newer_entries(feed, dates, current);
    let at = lemma_written_holds(held, writes, key);
    let from = lemma_newer_entry_source(feed, dates, current, at);
    lemma_record_reads_back(feed, from);
    lemma_key_is_no_tag(dates[from]);
    lemma_newest_after(dates, current);
    from
}

/// After an update from a writable feed the pointer stands at the snapshot
/// of the latest day of the feed, where that day is later than the newest
/// day of the store; where no day of the feed is later, the store holds
/// what it held.
pub proof fn lemma_update_points_at_newest(
    held: Map<Seq<u8>, Seq<u8>>,
    feed: Seq<SnapshotView>,
    current: CivilDate,
)
    requires
        writable(feed),
    ensures
        match newest_after(feed_dates(feed), current) {
            Some(newest) => {
                &&& current.precedes(&newest)
                &&& current_date(after_update(held, feed, feed_dates(feed), current)) == Some(
                    newest,
                )
            },
            None => after_update(held, feed, feed_dates(feed), current) == held,
        },
{
    let dates = feed_dates(feed);
    let next = after_update(held, feed, dates, current);
    match newest_after(dates, current) {
        None => {},
        Some(newest) => {
            let writes = newer_entries(feed, dates, current);
            lemma_newest_after(dates, current);
            let i = choose|i: int| 0 <= i < dates.len() && #[trigger] dates[i] == newest;
            let at = lemma_newer_entry_written(feed, dates, current, i);
            assert(writes[at].0 == key_bytes(newest));
            let from = lemma_updated_entry(held, feed, current, newest, key_bytes(newest));
            lemma_key_distinguishes(dates[from], newest);
            lemma_record_reads_back(feed, from);
            assert(next[pointer_tag()] == key_bytes(newest));
        },
    }
}

/// The pointer never goes back: after an update the newest day of the store
/// is the day it was or a later one.
pub proof fn lemma_update_moves_forward(
    held: Map<Seq<u8>, Seq<u8>>,
    feed: Seq<SnapshotView>,
    current: CivilDate,
)
    requires
        current_date(held) == Some(current),
        writable(feed),
    ensures
        current_date(after_update(held, feed, feed_dates(feed), current)) matches Some(next)
            && !next.precedes(&current),
{
    lemma_update_points_at_newest(held, feed, current);
}

/// An update from the same feed a second time changes nothing: what the
/// first update left is what the second leaves.
pub proof fn lemma_update_twice(
    held: Map<Seq<u8>, Seq<u8>>,
    feed: Seq<SnapshotView>,
    current: CivilDate,
)
    requires
        current_date(held) == Some(current),
        writable(feed),
    ensures
        current_date(after_update(held, feed, feed_dates(feed), current)) matches Some(next)
            && after_update(
            after_update(held, feed, feed_dates(feed), current),
            feed,
            feed_dates(feed),
            next,
        ) == after_update(held, feed, feed_dates(feed), current),
{
    let dates = feed_dates(feed);
    lemma_update_points_at_newest(held, feed, current);
    match newest_after(dates, current) {
        None => {},
        Some(newest) => {
            lemma_newest_after(dates, current);
            lemma_newest_after(dates, newest);
            if newest_after(dates, newest).is_some() {
                let later = newest_after(dates, newest).unwrap();
                let i = choose|i: int| 0 <= i < dates.len() && #[trigger] dates[i] == later;
                assert(!newest.precedes(&dates[i]));
            }
        },
    }
}

/// An update from a storable feed keeps a sound store sound.
pub proof fn lemma_update_keeps_sound(
    held: Map<Seq<u8>, Seq<u8>>,
    feed: Seq<SnapshotView>,
    current: CivilDate,
)
    requires
        sound(held),
        current_date(held) == Some(current),
        storable(feed),
    ensures
        sound(after_update(held, feed, feed_dates(feed), current)),
{
    let dates = feed_dates(feed);
    let next = after_update(held, feed, dates, current);
    lemma_update_points_at_newest(held, feed, current);
    match newest_after(dates, current) {
        None => {},
        Some(newest) => {
            let writes = newer_entries(feed, dates, current);
            lemma_newest_after(dates, current);
            assert forall|key: Seq<u8>|
                #[trigger] next.dom().contains(key) && key != pointer_tag() implies sound_entry(
                next,
                key,
                newest,
            ) by {
                if exists|i: int| 0 <= i < writes.len() && (#[trigger] writes[i]).0 == key {
                    let from = lemma_updated_entry(held, feed, current, newest, key);
                    lemma_record_reads_back(feed, from);
                    lemma_with_base_has_one_base(feed[from]);
                } else {
                    lemma_written_keeps(held, writes, key);
                    assert(held.dom().contains(key));
                    assert(sound_entry(held, key, current));
                }
            }
        },
    }
}

/// An update with the same daily snapshot a second time finds the store up
/// to date: where the first update stored the snapshot, the newest day of
/// the store is the day of the snapshot, and nothing is left to fetch or to
/// write.
pub proof fn lemma_daily_update_twice(
    held: Map<Seq<u8>, Seq<u8>>,
    daily: SnapshotView,
    stored: CivilDate,
)
    requires
        current_date(held) == Some(stored),
        stored.wf(),
        writable(seq![daily]),
        refresh_for(day_of(daily), stored) == Some(Refresh::Daily),
    ensures
        current_date(after_update(held, seq![daily], seq![day_of(daily)], stored)) == Some(
            day_of(daily),
        ),
        refresh_for(day_of(daily), day_of(daily)) == Some(Refresh::UpToDate),
{
    let feed = seq![daily];
    let fetched = day_of(daily);
    assert(feed_dates(feed) =~= seq![fetched]);
    assert(fetched.wf()) by {
        assert(feed_dates(feed)[0].wf());
    }
    if fetched.precedes(&stored) {
        crate::calendar::lemma_epoch_day_ascends(fetched, stored);
    }
    assert(seq![fetched].drop_last() =~= Seq::<CivilDate>::empty());
    assert(newest_after(seq![fetched], stored) == Some(fetched)) by {
        reveal_with_fuel(newest_after, 2);
    }
    lemma_update_points_at_newest(held, feed, stored);
}

/// After bootstrap from a writable feed the pointer stands at the first
/// snapshot of the feed, whatever the store held before.
pub proof fn lemma_bootstrap_points_at_first(
    held: Map<Seq<u8>, Seq<u8>>,
    feed: Seq<SnapshotView>,
)
    requires
        feed.len() > 0,
        writable(feed),
    ensures
        current_date(after_bootstrap(held, feed, feed_dates(feed))) == Some(feed_dates(feed)[0]),
{
    let dates = feed_dates(feed);
    let writes = feed_entries(feed, dates);
    let next = after_bootstrap(held, feed, dates);
    assert(writes[0].0 == key_bytes(dates[0]));
    let at = lemma_written_holds(held, writes, key_bytes(dates[0]));
    lemma_record_reads_back(feed, at);
    lemma_key_distinguishes(dates[at], dates[0]);
    lemma_key_is_no_tag(dates[0]);
    assert(next[pointer_tag()] == key_bytes(dates[0]));
}

/// After bootstrap from a storable feed whose first snapshot is of its
/// newest day, a key that bootstrap wrote holds a sound entry.
proof fn lemma_bootstrapped_entry_sound(feed: Seq<SnapshotView>, key: Seq<u8>)
    requires
        feed.len() > 0,
        storable(feed),
        forall|i: int|
            0 <= i < feed.len() ==> !feed_dates(feed)[0].precedes(#[trigger] &feed_dates(feed)[i]),
        exists|i: int|
            0 <= i < feed.len() && (#[trigger] feed_entries(feed, feed_dates(feed))[i]).0 == key,
    ensures
        key != pointer_tag(),
        sound_entry(
            after_bootstrap(Map::empty(), feed, feed_dates(feed)),
            key,
            feed_dates(feed)[0],
        ),
{
    let dates = feed_dates(feed);
    let writes = feed_entries(feed, dates);
    let at = lemma_written_holds(Map::empty(), writes, key);
    lemma_record_reads_back(feed, at);
    lemma_with_base_has_one_base(feed[at]);
    lemma_key_is_no_tag(dates[at]);
    assert(!dates[0].precedes(&dates[at]));
}

/// Bootstrap from a storable feed whose first snapshot is of its newest day
/// makes a sound store out of an empty one, with the pointer at that day.
pub proof fn lemma_bootstrap_makes_sound(feed: Seq<SnapshotView>)
    requires
        feed.len() > 0,
        storable(feed),
        forall|i: int|
            0 <= i < feed.len() ==> !feed_dates(feed)[0].precedes(#[trigger] &feed_dates(feed)[i]),
    ensures
        sound(after_bootstrap(Map::empty(), feed, feed_dates(feed))),
        current_date(after_bootstrap(Map::empty(), feed, feed_dates(feed))) == Some(
            feed_dates(feed)[0],
        ),
{
    let dates = feed_dates(feed);
    let writes = feed_entries(feed, dates);
    let empty = Map::<Seq<u8>, Seq<u8>>::empty();
    let next = after_bootstrap(empty, feed, dates);
    let newest = dates[0];
    lemma_bootstrap_points_at_first(empty, feed);
    assert forall|key: Seq<u8>|
        #[trigger] next.dom().contains(key) && key != pointer_tag() implies sound_entry(
        next,
        key,
        newest,
    ) by {
        if exists|i: int| 0 <= i < feed.len() && (#[trigger] writes[i]).0 == key {
            lemma_bootstrapped_entry_sound(feed, key);
        } else {
            lemma_written_keeps(empty, writes, key);
        }
    }
}

/// Every snapshot that a sound store gives out names the base currency
/// exactly once, at rate 1.0: the snapshot at the pointer, and the
/// snapshot under any key.
pub proof fn lemma_reads_name_base_once(held: Map<Seq<u8>, Seq<u8>>, key: Seq<u8>)
    requires
        sound(held),
    ensures
        current_snapshot(held) matches Some(snapshot) && has_one_base(snapshot),
        key != pointer_tag() ==> (snapshot_at(held, key) matches Some(snapshot) ==> has_one_base(
            snapshot,
        )),
{
    lemma_tag_is_no_record();
    let target = held[pointer_tag()];
    assert(held.dom().contains(target));
    assert(sound_entry(held, target, current_date(held).unwrap()));
    if key != pointer_tag() && held.dom().contains(key) {
        assert(sound_entry(held, key, current_date(held).unwrap()));
    }
}

/// The day that a snapshot names.
pub open spec fn day_of(snapshot: SnapshotView) -> CivilDate {
    parsed_date(snapshot.value).unwrap()
}

/// A byte string that sorts no later than one with a first byte of 0 begins
/// with 0 itself.
proof fn lemma_below_zero_byte(key: Seq<u8>, high: Seq<u8>)
    requires
        key.len() == 8,
        high.len() == 8,
        high[0] == 0,
        lex_le(key, high),
    ensures
        key[0] == 0,
{
    if key != high {
        let k = choose|k: int| #[trigger] parts_below(key, high, k);
        if k > 0 {
            assert(key[0] == high[0]);
        }
    }
}

/// A byte string that sorts no earlier than one with a first byte of 255
/// begins with 255 itself.
proof fn lemma_above_last_byte(low: Seq<u8>, key: Seq<u8>)
    requires
        key.len() == 8,
        low.len() == 8,
        low[0] == 255,
        lex_le(low, key),
    ensures
        key[0] == 255,
{
    if key != low {
        let k = choose|k: int| #[trigger] parts_below(low, key, k);
        if k > 0 {
            assert(key[0] == low[0]);
        }
    }
}

/// A walk between the keys of two days on the same side of 1970-01-01 does
/// not meet the pointer.
pub proof fn lemma_walk_misses_pointer(start: CivilDate, end: CivilDate)
    requires
        start.wf(),
        end.wf(),
        (start.epoch_day() < 0) == (end.epoch_day() < 0),
    ensures
        !within(pointer_tag(), key_bytes(start), key_bytes(end)),
{
    lemma_first_byte(start);
    lemma_first_byte(end);
    let tag = pointer_tag();
    assert(tag.len() == 7 && tag[0] == 99);
    if start.epoch_day() < 0 {
        if lex_lt(key_bytes(start), tag) {
            let k = choose|k: int| #[trigger] parts_below(key_bytes(start), tag, k);
            if k > 0 {
                assert(key_bytes(start)[0] == tag[0]);
            }
        }
    } else {
        if lex_lt(tag, key_bytes(end)) {
            let k = choose|k: int| #[trigger] parts_below(tag, key_bytes(end), k);
            if k > 0 {
                assert(tag[0] == key_bytes(end)[0]);
            }
        }
    }
}

/// What a walk between the keys of two days on the same side of 1970-01-01
/// meets in a sound store: a snapshot with the base currency, stored under
/// the key of its day, and its day lies between the two.
proof fn lemma_walk_entry(
    held: Map<Seq<u8>, Seq<u8>>,
    start: CivilDate,
    end: CivilDate,
    key: Seq<u8>,
)
    requires
        sound(held),
        start.wf(),
        end.wf(),
        (start.epoch_day() < 0) == (end.epoch_day() < 0),
        held.dom().contains(key),
        within(key, key_bytes(start), key_bytes(end)),
    ensures
        snapshot_at(held, key) matches Some(snapshot) && {
            &&& has_one_base(snapshot)
            &&& parsed_date(snapshot.value).is_some()
            &&& day_of(snapshot).wf()
            &&& key == key_bytes(day_of(snapshot))
            &&& (day_of(snapshot).epoch_day() < 0) == (start.epoch_day() < 0)
            &&& !day_of(snapshot).precedes(&start)
            &&& !end.precedes(&day_of(snapshot))
        },
{
    lemma_walk_misses_pointer(start, end);
    let current = current_date(held).unwrap();
    assert(sound_entry(held, key, current));
    let day = day_of(snapshot_at(held, key).unwrap());
    lemma_first_byte(start);
    lemma_first_byte(end);
    lemma_first_byte(day);
    if start.epoch_day() < 0 {
        lemma_above_last_byte(key_bytes(start), key);
    } else {
        lemma_below_zero_byte(key, key_bytes(end));
    }
    if day.precedes(&start) {
        lemma_key_order(day, start);
        lemma_lex_lt_asymmetric(key_bytes(day), key_bytes(start));
    }
    if end.precedes(&day) {
        lemma_key_order(end, day);
        lemma_lex_lt_asymmetric(key_bytes(end), key_bytes(day));
    }
}

/// A walk through a sound store between two days on the same side of
/// 1970-01-01 is a walk through the calendar: it gives the snapshots of
/// the stored days from `start` to `end`, both included, each once, the
/// earlier day first, and each with the base currency.
pub proof fn lemma_walk_follows_calendar(
    held: Map<Seq<u8>, Seq<u8>>,
    start: CivilDate,
    end: CivilDate,
    found: Seq<SnapshotView>,
)
    requires
        sound(held),
        start.wf(),
        end.wf(),
        (start.epoch_day() < 0) == (end.epoch_day() < 0),
        scanned(held, key_bytes(start), key_bytes(end), found),
    ensures
        forall|i: int|
            0 <= i < found.len() ==> {
                &&& parsed_date((#[trigger] found[i]).value).is_some()
                &&& snapshot_at(held, key_bytes(day_of(found[i]))) == Some(found[i])
                &&& !day_of(found[i]).precedes(&start)
                &&& !end.precedes(&day_of(found[i]))
                &&& has_one_base(found[i])
            },
        forall|i: int, j: int|
            0 <= i < j < found.len() ==> day_of(#[trigger] found[i]).precedes(
                &day_of(#[trigger] found[j]),
            ),
        forall|day: CivilDate|
            day.wf() && !day.precedes(&start) && !end.precedes(&day) && #[trigger] held.dom().contains(
                key_bytes(day),
            ) ==> exists|i: int| 0 <= i < found.len() && day_of(#[trigger] found[i]) == day,
{
    let low = key_bytes(start);
    let high = key_bytes(end);
    let scan = choose|scan: Seq<(Seq<u8>, Seq<u8>)>|
        {
            &&& #[trigger] is_scan(held, low, high, scan)
            &&& scan.len() == found.len()
            &&& forall|i: int|
                0 <= i < scan.len() ==> decode_snapshot((#[trigger] scan[i]).1) == Some(found[i])
        };
    assert forall|i: int| 0 <= i < found.len() implies {
        &&& parsed_date((#[trigger] found[i]).value).is_some()
        &&& day_of(found[i]).wf()
        &&& scan[i].0 == key_bytes(day_of(found[i]))
        &&& (day_of(found[i]).epoch_day() < 0) == (start.epoch_day() < 0)
        &&& snapshot_at(held, key_bytes(day_of(found[i]))) == Some(found[i])
        &&& !day_of(found[i]).precedes(&start)
        &&& !end.precedes(&day_of(found[i]))
        &&& has_one_base(found[i])
    } by {
        assert(held[scan[i].0] == scan[i].1);
        lemma_walk_entry(held, start, end, scan[i].0);
    }
    assert forall|i: int, j: int| 0 <= i < j < found.len() implies day_of(
        #[trigger] found[i],
    ).precedes(&day_of(#[trigger] found[j])) by {
        assert(lex_lt(scan[i].0, scan[j].0));
        lemma_key_order_back(day_of(found[i]), day_of(found[j]));
    }
    assert forall|day: CivilDate|
        day.wf() && !day.precedes(&start) && !end.precedes(&day) && #[trigger] held.dom().contains(
            key_bytes(day),
        ) implies exists|i: int| 0 <= i < found.len() && day_of(#[trigger] found[i]) == day by {
        if start.precedes(&day) {
            crate::calendar::lemma_epoch_day_ascends(start, day);
        }
        if day.precedes(&end) {
            crate::calendar::lemma_epoch_day_ascends(day, end);
        }
        if start.precedes(&day) {
            lemma_key_order(start, day);
        }
        if day.precedes(&end) {
            lemma_key_order(day, end);
        }
        assert(within(key_bytes(day), low, high));
        let i = choose|i: int| 0 <= i < scan.len() && (#[trigger] scan[i]).0 == key_bytes(day);
        assert(parsed_date(found[i].value).is_some());
        lemma_key_distinguishes(day_of(found[i]), day);
    }
}

} // verus!

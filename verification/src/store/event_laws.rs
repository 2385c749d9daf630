//! What the event store promises over a disk: every event that was appended
//! is replayed and survives a restart, also one after a crash.

use crate::error::{AppendOutcome, EnvError, StoreError};
use crate::model::event::EnvironmentalEvent;
use crate::store::events::{
    append_event_yields, event_names, event_store_of, event_write_due, ids_of, open_events_yields,
    total_events, EventSegment, EventView,
};
use crate::store::layout::{
    corrupt_after, files_decode, index_in, indexed, laid_out, lemma_chain_is_stored,
    lemma_closing_keeps_layout, lemma_line_is_stored, lemma_listing_is_layout,
    lemma_open_finds_tear, lemma_open_gives_stored, lemma_open_names_corrupt_line,
    lemma_replay_gives_stored, lists_disk, stored, tail_clean, with_bytes, with_closed,
    with_torn_tail,
};
use crate::store::lines::{
    all_decode, computes, ends_clean, framed, gap, is_one_line, line_reads_as, records_in,
};
use crate::store::load::{
    open_fails, opened_prefix, repair_needed, replay_yields, serves, Batch, Disk, Repair,
};
use crate::store::segment::{file_name, segment_index};
use crate::text::texts;
use vstd::prelude::*;

verus! {

/// No two events share an id.
pub open spec fn distinct_ids(events: Seq<EnvironmentalEvent>) -> bool {
    forall|i: int, j: int|
        0 <= i < j < events.len() ==> (#[trigger] events[i]).event_id@ != (
        #[trigger] events[j]).event_id@
}

/// The events that the segments of the store hold on the disk.
pub open spec fn events_on(
    store: EventView,
    disk: Disk,
    p: spec_fn(Seq<char>) -> Result<EnvironmentalEvent, String>,
) -> Seq<EnvironmentalEvent> {
    stored(event_names(store.segments), disk, p)
}

/// The count of a segment is that of its file.
pub open spec fn counts(
    segment: EventSegment,
    disk: Disk,
    p: spec_fn(Seq<char>) -> Result<EnvironmentalEvent, String>,
) -> bool {
    segment.records == records_in(disk[segment.name], p).len()
}

/// The store is what the disk holds: its segments are the segment files, in
/// order and readable, with the right counts, it knows whether the last line
/// lacks its newline, and the dedup index knows the ids of the events in them
/// and no others.
pub open spec fn events_on_disk(
    store: EventView,
    disk: Disk,
    p: spec_fn(Seq<char>) -> Result<EnvironmentalEvent, String>,
) -> bool {
    &&& laid_out(event_names(store.segments), "evt"@, store.next_segment_index, disk)
    &&& files_decode(event_names(store.segments), disk, p)
    &&& forall|i: int| 0 <= i < store.segments.len() ==> counts(#[trigger] store.segments[i], disk, p)
    &&& store.unterminated == !tail_clean(event_names(store.segments), disk)
    &&& store.seen == ids_of(events_on(store, disk, p))
}

/// An id is among the ids of the events where some event has it.
proof fn lemma_ids_contains(events: Seq<EnvironmentalEvent>, i: int)
    requires
        0 <= i < events.len(),
    ensures
        ids_of(events).contains(events[i].event_id@),
    decreases events.len(),
{
    if i < events.len() - 1 {
        lemma_ids_contains(events.drop_last(), i);
    }
}

/// No segment holds more than the total.
proof fn lemma_part_of_total(segments: Seq<EventSegment>, i: int)
    requires
        0 <= i < segments.len(),
    ensures
        segments[i].records <= total_events(segments),
    decreases segments.len(),
{
    if i < segments.len() - 1 {
        lemma_part_of_total(segments.drop_last(), i);
    }
}

/// The ids are finitely many, and as many as the events where those are
/// distinct.
proof fn lemma_distinct_ids_count(events: Seq<EnvironmentalEvent>)
    ensures
        ids_of(events).finite(),
        distinct_ids(events) ==> ids_of(events).len() == events.len(),
    decreases events.len(),
{
    if events.len() > 0 {
        let n = events.len() - 1;
        let fewer = events.drop_last();
        lemma_distinct_ids_count(fewer);
        if distinct_ids(events) {
            assert forall|i: int, j: int| 0 <= i < j < fewer.len() implies (
            #[trigger] fewer[i]).event_id@ != (#[trigger] fewer[j]).event_id@ by {
                assert(events[i].event_id@ != events[j].event_id@);
            }
            if ids_of(fewer).contains(events[n].event_id@) {
                let i = lemma_id_has_event(fewer, events[n].event_id@);
                assert(events[i].event_id@ != events[n].event_id@);
            }
        }
    }
}

/// An id among the ids of the events is that of some event.
proof fn lemma_id_has_event(events: Seq<EnvironmentalEvent>, id: Seq<char>) -> (i: int)
    requires
        ids_of(events).contains(id),
    ensures
        0 <= i < events.len(),
        events[i].event_id@ == id,
    decreases events.len(),
{
    if events.last().event_id@ == id {
        events.len() - 1
    } else {
        lemma_id_has_event(events.drop_last(), id)
    }
}

/// The store with one more event, whose line went to the disk with its newline
/// or, where the write was cut short, without.
spec fn with_written(before: EventView, event: EnvironmentalEvent, newline: bool) -> EventView {
    EventView { unterminated: !newline, ..before.rolled().with_event(event) }
}

/// A line that is written where the store would write it is one more event.
proof fn lemma_event_is_stored(
    before: EventView,
    disk: Disk,
    p: spec_fn(Seq<char>) -> Result<EnvironmentalEvent, String>,
    event: EnvironmentalEvent,
    line: Seq<u8>,
    newline: bool,
    after: EventView,
)
    requires
        events_on_disk(before, disk, p),
        before.has_room(),
        before.must_roll() ==> before.next_segment_index < 1_000_000,
        is_one_line(line),
        line.len() > 0 || newline,
        line_reads_as(line, p, event),
        !before.seen.contains(event.event_id@),
        after == with_written(before, event, newline),
    ensures
        ({
            let disk2 = with_bytes(
                disk,
                after.segments.last().name,
                gap(before.rolled().unterminated) + framed(line, newline),
            );
            let all = events_on(before, disk, p);
            &&& events_on_disk(after, disk2, p)
            &&& events_on(after, disk2, p) == all.push(event)
            &&& distinct_ids(all) ==> distinct_ids(all.push(event))
        }),
{
    let rolled = before.rolled();
    let roll = before.must_roll();
    let names = event_names(before.segments);
    let names2 = event_names(after.segments);
    let next = before.next_segment_index;
    if roll {
        assert(names2 =~= names.push(file_name("evt"@, next)));
    } else {
        assert(names2 =~= names);
    }
    assert(names2.last() == after.segments.last().name);
    assert(rolled.unterminated == (!roll && !tail_clean(names, disk)));
    lemma_line_is_stored(names, roll, "evt"@, next, disk, p, line, newline, event);
    let disk2 = with_bytes(
        disk,
        names2.last(),
        gap(rolled.unterminated) + framed(line, newline),
    );
    let all = events_on(before, disk, p);
    assert(all.push(event).drop_last() =~= all);
    assert forall|i: int, j: int|
        distinct_ids(all) && 0 <= i < j < all.push(event).len() implies (
    #[trigger] all.push(event)[i]).event_id@ != (#[trigger] all.push(event)[j]).event_id@ by {
        if j == all.len() {
            lemma_ids_contains(all, i);
        } else {
            assert(all.push(event)[i] == all[i] && all.push(event)[j] == all[j]);
        }
    }
    let n = after.segments.len() - 1;
    assert forall|i: int| 0 <= i < after.segments.len() implies counts(
        #[trigger] after.segments[i],
        disk2,
        p,
    ) by {
        assert(names2[i] == after.segments[i].name);
        if i < n {
            assert(after.segments[i] == before.segments[i]);
            assert(counts(before.segments[i], disk, p));
        } else if !roll {
            assert(counts(before.segments[n], disk, p));
            assert(before.segments[n] == rolled.segments.last());
            lemma_part_of_total(before.segments, n);
        } else {
            assert(rolled.segments.last().records == 0);
        }
    }
}

/// **An appended event is stored.** After an append that says `Appended`,
/// with the bytes it handed out appended to the named file, the store is still
/// what the disk holds, and the disk holds one more event after those it held
/// before; the store counts one more. So it is also where a crash has left the
/// file without its last newline.
pub proof fn law_append_event_is_stored<W: FnOnce(&String, &Vec<u8>) -> Result<(), StoreError>>(
    before: EventView,
    disk: Disk,
    p: spec_fn(Seq<char>) -> Result<EnvironmentalEvent, String>,
    event: EnvironmentalEvent,
    geo: Result<(), EnvError>,
    confidence_bits: u32,
    line: Vec<u8>,
    write: W,
    after: EventView,
)
    requires
        events_on_disk(before, disk, p),
        before.has_room(),
        before.must_roll() ==> before.next_segment_index < 1_000_000,
        is_one_line(line@),
        line_reads_as(line@, p, event),
        append_event_yields(
            before,
            event,
            geo,
            confidence_bits,
            Ok(line),
            write,
            Ok(AppendOutcome::Appended),
            after,
        ),
    ensures
        ({
            let disk2 = with_bytes(
                disk,
                after.segments.last().name,
                before.rolled().handed_out(line@),
            );
            &&& events_on_disk(after, disk2, p)
            &&& events_on(after, disk2, p) == events_on(before, disk, p).push(event)
            &&& distinct_ids(events_on(before, disk, p)) ==> distinct_ids(
                events_on(after, disk2, p),
            )
        }),
        after.seen.len() == before.seen.len() + 1,
{
    lemma_event_is_stored(before, disk, p, event, line@, true, after);
    lemma_distinct_ids_count(events_on(before, disk, p));
}

/// **A newline that was lost costs nothing.** Where a crash cut a write short
/// right before its newline, the event is there after a restart, and the store
/// goes on from it.
pub proof fn law_lost_newline_keeps_event<
    R: Fn(&String) -> Result<Vec<u8>, StoreError>,
    F: Fn(&str) -> Result<EnvironmentalEvent, String>,
>(
    before: EventView,
    disk: Disk,
    p: spec_fn(Seq<char>) -> Result<EnvironmentalEvent, String>,
    event: EnvironmentalEvent,
    line: Seq<u8>,
    disk2: Disk,
    files: Seq<String>,
    read: R,
    parse: F,
    result: Result<(EventView, Option<Repair>), StoreError>,
)
    requires
        events_on_disk(before, disk, p),
        before.segment_max_records > 0,
        before.has_room(),
        before.must_roll() ==> before.next_segment_index < 1_000_000,
        is_one_line(line),
        line.len() > 0,
        line_reads_as(line, p, event),
        !before.seen.contains(event.event_id@),
        disk2 == with_bytes(
            disk,
            before.rolled().segments.last().name,
            before.rolled().handed_out(line).drop_last(),
        ),
        lists_disk(files, disk2),
        serves(read, disk2),
        computes(parse, p),
        open_events_yields(files, before.segment_max_records, read, parse, result),
    ensures
        result is Ok,
        result->Ok_0.1 is None,
        events_on_disk(result->Ok_0.0, disk2, p),
        events_on(result->Ok_0.0, disk2, p) == events_on(before, disk, p).push(event),
{
    let after = with_written(before, event, false);
    let rolled = before.rolled();
    assert(after.segments.last().name == rolled.segments.last().name);
    assert(rolled.handed_out(line).drop_last() =~= gap(rolled.unterminated) + framed(line, false));
    lemma_event_is_stored(before, disk, p, event, line, false, after);
    law_reopen_gives_events_back(after, disk2, p, files, read, parse, result);
}

/// Where a crash cut a write short right after the newline that goes in front,
/// the disk holds the events it held before.
pub proof fn law_newline_alone_adds_no_event(
    store: EventView,
    disk: Disk,
    p: spec_fn(Seq<char>) -> Result<EnvironmentalEvent, String>,
)
    requires
        events_on_disk(store, disk, p),
        store.segments.len() > 0,
    ensures
        ({
            let disk2 = with_closed(disk, store.segments.last().name);
            let ended = EventView { unterminated: false, ..store };
            &&& events_on_disk(ended, disk2, p)
            &&& events_on(ended, disk2, p) == events_on(store, disk, p)
        }),
{
    let names = event_names(store.segments);
    let last = store.segments.last().name;
    let disk2 = with_closed(disk, last);
    assert(names.last() == last);
    lemma_closing_keeps_layout(names, "evt"@, store.next_segment_index, disk, p);
    assert forall|i: int| 0 <= i < store.segments.len() implies counts(
        #[trigger] store.segments[i],
        disk2,
        p,
    ) by {
        assert(counts(store.segments[i], disk, p));
        assert(names[i] == store.segments[i].name);
        assert(records_in(disk2[names[i]], p) == records_in(disk[names[i]], p));
    }
}

/// **An event is taken in at most once.** Once an append has said `Appended`,
/// every further append of a valid event with the same id says `Duplicate`,
/// has nothing to write and changes nothing.
pub proof fn law_second_event_is_duplicate<
    W: FnOnce(&String, &Vec<u8>) -> Result<(), StoreError>,
    W2: FnOnce(&String, &Vec<u8>) -> Result<(), StoreError>,
>(
    before: EventView,
    event: EnvironmentalEvent,
    geo: Result<(), EnvError>,
    confidence_bits: u32,
    line: Result<Vec<u8>, String>,
    write: W,
    after: EventView,
    again: EnvironmentalEvent,
    geo2: Result<(), EnvError>,
    confidence_bits2: u32,
    line2: Result<Vec<u8>, String>,
    write2: W2,
    result: Result<AppendOutcome, StoreError>,
    last: EventView,
)
    requires
        append_event_yields(
            before,
            event,
            geo,
            confidence_bits,
            line,
            write,
            Ok(AppendOutcome::Appended),
            after,
        ),
        again.event_id@ == event.event_id@,
        again.fault(geo2, confidence_bits2) is Ok,
        append_event_yields(after, again, geo2, confidence_bits2, line2, write2, result, last),
    ensures
        result == Ok::<AppendOutcome, StoreError>(AppendOutcome::Duplicate),
        last == after,
        forall|name: Seq<char>, bytes: Seq<u8>|
            !#[trigger] event_write_due(
                after,
                again,
                geo2,
                confidence_bits2,
                line2,
                name,
                bytes,
            ),
{
}

/// **An invalid event never reaches the disk**: it is refused with its fault,
/// nothing is to be written for it, and the store is as it was.
pub proof fn law_invalid_event_is_refused<W: FnOnce(&String, &Vec<u8>) -> Result<(), StoreError>>(
    before: EventView,
    event: EnvironmentalEvent,
    geo: Result<(), EnvError>,
    confidence_bits: u32,
    line: Result<Vec<u8>, String>,
    write: W,
    result: Result<AppendOutcome, StoreError>,
    after: EventView,
)
    requires
        event.fault(geo, confidence_bits) is Err,
        append_event_yields(before, event, geo, confidence_bits, line, write, result, after),
    ensures
        result == Err::<AppendOutcome, StoreError>(
            StoreError::Core(event.fault(geo, confidence_bits)->Err_0),
        ),
        after == before,
        forall|name: Seq<char>, bytes: Seq<u8>|
            !#[trigger] event_write_due(before, event, geo, confidence_bits, line, name, bytes),
{
}

/// The number of events that the store reports is the number of ids among the
/// events on the disk, and that of the events themselves where no id is there
/// twice.
pub proof fn law_len_counts_events(
    store: EventView,
    disk: Disk,
    p: spec_fn(Seq<char>) -> Result<EnvironmentalEvent, String>,
)
    requires
        events_on_disk(store, disk, p),
    ensures
        store.seen.finite(),
        store.seen.len() == ids_of(events_on(store, disk, p)).len(),
        distinct_ids(events_on(store, disk, p)) ==> store.seen.len() == events_on(
            store,
            disk,
            p,
        ).len(),
        total_events(store.segments) == events_on(store, disk, p).len(),
{
    lemma_segments_count(store.segments, disk, p);
    lemma_distinct_ids_count(events_on(store, disk, p));
}

/// Segments with the right counts add up.
proof fn lemma_segments_count(
    segments: Seq<EventSegment>,
    disk: Disk,
    p: spec_fn(Seq<char>) -> Result<EnvironmentalEvent, String>,
)
    requires
        forall|i: int| 0 <= i < segments.len() ==> counts(#[trigger] segments[i], disk, p),
    ensures
        total_events(segments) == stored(event_names(segments), disk, p).len(),
    decreases segments.len(),
{
    if segments.len() > 0 {
        assert(counts(segments[segments.len() - 1], disk, p));
        assert(event_names(segments).drop_last() =~= event_names(segments.drop_last()));
        assert forall|i: int| 0 <= i < segments.drop_last().len() implies counts(
            #[trigger] segments.drop_last()[i],
            disk,
            p,
        ) by {
            assert(segments.drop_last()[i] == segments[i]);
        }
        lemma_segments_count(segments.drop_last(), disk, p);
    }
}

/// **Replay gives back what was stored**, in append order.
pub proof fn law_replay_gives_events_back<
    R: Fn(&String) -> Result<Vec<u8>, StoreError>,
    F: Fn(&str) -> Result<EnvironmentalEvent, String>,
>(
    store: EventView,
    disk: Disk,
    p: spec_fn(Seq<char>) -> Result<EnvironmentalEvent, String>,
    names: Seq<String>,
    read: R,
    parse: F,
    result: Result<Vec<EnvironmentalEvent>, StoreError>,
)
    requires
        events_on_disk(store, disk, p),
        serves(read, disk),
        computes(parse, p),
        texts(names) == event_names(store.segments),
        replay_yields(names, read, parse, result),
    ensures
        result is Ok,
        result->Ok_0@ == events_on(store, disk, p),
{
    lemma_replay_gives_stored(
        names,
        event_names(store.segments),
        disk,
        read,
        parse,
        p,
        result,
    );
}

/// What a store that was opened over these batches is.
proof fn lemma_store_of_batches(
    store: EventView,
    disk: Disk,
    p: spec_fn(Seq<char>) -> Result<EnvironmentalEvent, String>,
    batches: Seq<Batch<EnvironmentalEvent>>,
    segment_max_records: usize,
)
    requires
        events_on_disk(store, disk, p),
        batches.len() == store.segments.len(),
        forall|i: int|
            0 <= i < batches.len() ==> {
                let batch = #[trigger] batches[i];
                let bytes = disk[event_names(store.segments)[i]];
                &&& batch.records@ == records_in(bytes, p)
                &&& batch.unterminated == !ends_clean(bytes)
            },
    ensures
        event_store_of(
            indexed(event_names(store.segments), "evt"@),
            batches,
            segment_max_records,
        ) == (EventView {
            segment_max_records: if segment_max_records == 0 {
                1
            } else {
                segment_max_records
            },
            ..store
        }),
{
    let names = event_names(store.segments);
    let listing = indexed(names, "evt"@);
    let opened = event_store_of(listing, batches, segment_max_records);
    lemma_chain_is_stored(batches, names, disk, p);
    assert forall|i: int| 0 <= i < opened.segments.len() implies opened.segments[i]
        == store.segments[i] by {
        assert(counts(store.segments[i], disk, p));
        assert(names[i] == store.segments[i].name);
        assert(batches[i].records@.len() == store.segments[i].records);
        assert(listing[i].0 == store.segments[i].name);
    }
    assert(opened.segments =~= store.segments);
    if batches.len() > 0 {
        assert(listing[batches.len() - 1].1 == index_in(names.last(), "evt"@));
        assert(batches[batches.len() - 1].unterminated == !ends_clean(disk[names.last()]));
    }
}

/// **A store survives a restart.** Opening the disk that a store describes
/// succeeds without repair and gives that store back.
pub proof fn law_reopen_gives_events_back<
    R: Fn(&String) -> Result<Vec<u8>, StoreError>,
    F: Fn(&str) -> Result<EnvironmentalEvent, String>,
>(
    store: EventView,
    disk: Disk,
    p: spec_fn(Seq<char>) -> Result<EnvironmentalEvent, String>,
    files: Seq<String>,
    read: R,
    parse: F,
    result: Result<(EventView, Option<Repair>), StoreError>,
)
    requires
        events_on_disk(store, disk, p),
        store.segment_max_records > 0,
        lists_disk(files, disk),
        serves(read, disk),
        computes(parse, p),
        open_events_yields(files, store.segment_max_records, read, parse, result),
    ensures
        result == Ok::<(EventView, Option<Repair>), StoreError>((store, None)),
{
    let names = event_names(store.segments);
    let listing = indexed(names, "evt"@);
    let max = store.segment_max_records;
    lemma_listing_is_layout(files, names, "evt"@, store.next_segment_index, disk);
    lemma_open_gives_stored(names, "evt"@, disk, read, parse, p);
    match result {
        Ok((opened, repair)) => {
            let batches = choose|batches: Seq<Batch<EnvironmentalEvent>>| #[trigger]
                opened_prefix(listing, read, parse, batches) && batches.len() == listing.len()
                    && opened == event_store_of(listing, batches, max) && repair_needed(
                    listing,
                    batches,
                    repair,
                );
            lemma_store_of_batches(store, disk, p, batches, max);
            assert(repair is None);
        },
        Err(error) => {
            assert(!open_fails::<EnvironmentalEvent, R, F>(listing, read, parse, error));
        },
    }
}

/// **A torn last line is cut off.** Where the last file ends in a line that
/// does not decode, with or without its newline, opening gives the store
/// without that line, and asks for the file to be cut back to what it was, up
/// to the newline of the line before.
pub proof fn law_torn_event_is_repaired<
    R: Fn(&String) -> Result<Vec<u8>, StoreError>,
    F: Fn(&str) -> Result<EnvironmentalEvent, String>,
>(
    store: EventView,
    disk: Disk,
    p: spec_fn(Seq<char>) -> Result<EnvironmentalEvent, String>,
    torn: Seq<u8>,
    newline: bool,
    files: Seq<String>,
    read: R,
    parse: F,
    result: Result<(EventView, Option<Repair>), StoreError>,
)
    requires
        events_on_disk(store, disk, p),
        store.segment_max_records > 0,
        store.segments.len() > 0,
        disk[store.segments.last().name].len() < u64::MAX,
        is_one_line(torn),
        torn.len() > 0 || newline,
        forall|event: EnvironmentalEvent| !#[trigger] line_reads_as(torn, p, event),
        lists_disk(files, disk),
        serves(
            read,
            with_torn_tail(
                with_closed(disk, store.segments.last().name),
                store.segments.last().name,
                torn,
                newline,
            ),
        ),
        computes(parse, p),
        open_events_yields(files, store.segment_max_records, read, parse, result),
    ensures
        result is Ok,
        result->Ok_0.0 == (EventView { unterminated: false, ..store }),
        ({
            let disk2 = with_closed(disk, store.segments.last().name);
            &&& events_on_disk(result->Ok_0.0, disk2, p)
            &&& events_on(result->Ok_0.0, disk2, p) == events_on(store, disk, p)
            &&& result->Ok_0.1 is Some
            &&& result->Ok_0.1->0.segment@ == store.segments.last().name
            &&& result->Ok_0.1->0.size == disk2[store.segments.last().name].len()
        }),
{
    let names = event_names(store.segments);
    let listing = indexed(names, "evt"@);
    let max = store.segment_max_records;
    let last = store.segments.last().name;
    let ended = EventView { unterminated: false, ..store };
    let disk2 = with_closed(disk, last);
    law_newline_alone_adds_no_event(store, disk, p);
    assert(names.last() == last);
    assert(disk.contains_key(names[names.len() - 1]));
    assert(disk2.dom() =~= disk.dom());
    lemma_listing_is_layout(files, names, "evt"@, store.next_segment_index, disk2);
    lemma_open_finds_tear(names, "evt"@, disk2, torn, newline, read, parse, p);
    match result {
        Ok((opened, repair)) => {
            let batches = choose|batches: Seq<Batch<EnvironmentalEvent>>| #[trigger]
                opened_prefix(listing, read, parse, batches) && batches.len() == listing.len()
                    && opened == event_store_of(listing, batches, max) && repair_needed(
                    listing,
                    batches,
                    repair,
                );
            lemma_store_of_batches(ended, disk2, p, batches, max);
            assert(batches[names.len() - 1].torn);
            assert(listing[names.len() - 1].0 == last);
        },
        Err(error) => {
            assert(!open_fails::<EnvironmentalEvent, R, F>(listing, read, parse, error));
        },
    }
}

/// **A corrupt line is named.** Where a line other than a torn tail of the
/// last file does not decode, opening fails and says in which file and at
/// which line: the first such line of the first such file.
pub proof fn law_corrupt_event_is_named<
    R: Fn(&String) -> Result<Vec<u8>, StoreError>,
    F: Fn(&str) -> Result<EnvironmentalEvent, String>,
>(
    names: Seq<Seq<char>>,
    next: u64,
    disk: Disk,
    p: spec_fn(Seq<char>) -> Result<EnvironmentalEvent, String>,
    k: int,
    before: Seq<EnvironmentalEvent>,
    files: Seq<String>,
    segment_max_records: usize,
    read: R,
    parse: F,
    result: Result<(EventView, Option<Repair>), StoreError>,
)
    requires
        laid_out(names, "evt"@, next, disk),
        0 <= k < names.len(),
        forall|i: int| 0 <= i < k ==> all_decode(disk[#[trigger] names[i]], p),
        corrupt_after(disk[names[k]], k == names.len() - 1, p, before),
        lists_disk(files, disk),
        serves(read, disk),
        computes(parse, p),
        open_events_yields(files, segment_max_records, read, parse, result),
    ensures
        result matches Err(StoreError::Corrupt { segment, line, .. }) && segment@ == names[k]
            && line == before.len() + 1,
{
    lemma_listing_is_layout(files, names, "evt"@, next, disk);
    lemma_open_names_corrupt_line(names, "evt"@, disk, read, parse, p, k, before);
    match result {
        Ok(_) => {},
        Err(error) => {
            assert(open_fails::<EnvironmentalEvent, R, F>(indexed(names, "evt"@), read, parse, error));
        },
    }
}

/// The empty store is what a directory without segment files holds.
pub proof fn law_fresh_event_directory(
    store: EventView,
    disk: Disk,
    p: spec_fn(Seq<char>) -> Result<EnvironmentalEvent, String>,
)
    requires
        store.segments.len() == 0,
        !store.unterminated,
        store.next_segment_index == 0,
        store.seen == Set::<Seq<char>>::empty(),
        forall|name: Seq<char>| #[trigger]
            disk.contains_key(name) ==> segment_index(name, "evt"@) is None,
    ensures
        events_on_disk(store, disk, p),
{
    assert(event_names(store.segments) =~= Seq::empty());
}

} // verus!

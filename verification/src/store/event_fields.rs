//! What the event store does, said on the fields of events and segments.

use crate::error::{AppendOutcome, EnvError, StoreError};
use crate::model::event::EnvironmentalEvent;
use crate::store::event_laws::{
    counts, events_on, events_on_disk, law_replay_gives_events_back,
};
use crate::store::events::{
    append_event_yields, event_names, event_store_of, event_write_due, ids_of,
    open_events_yields, total_events, EventView,
};
use crate::store::lines::{computes, records_in};
use crate::store::load::{
    chain, last_items, opened_prefix, recent_of, repair_needed, replay_yields, serves, written,
    Batch, Disk, Repair,
};
use crate::store::sample_fields::lemma_chained;
use crate::store::segment::{file_name, listing_of, Listed};
use crate::text::texts;
use vstd::prelude::*;

verus! {

/// An id is among those of the events exactly where one of them has it.
proof fn lemma_id_of_some_event(events: Seq<EnvironmentalEvent>, id: Seq<char>)
    ensures
        ids_of(events).contains(id) <==> exists|k: int|
            0 <= k < events.len() && (#[trigger] events[k]).event_id@ == id,
    decreases events.len(),
{
    if events.len() > 0 {
        let n = events.len() - 1;
        let fewer = events.drop_last();
        lemma_id_of_some_event(fewer, id);
        if ids_of(fewer).contains(id) {
            let k = choose|k: int|
                0 <= k < fewer.len() && (#[trigger] fewer[k]).event_id@ == id;
            assert(events[k].event_id@ == id);
        }
        if exists|k: int| 0 <= k < events.len() && (#[trigger] events[k]).event_id@ == id {
            let k = choose|k: int|
                0 <= k < events.len() && (#[trigger] events[k]).event_id@ == id;
            if k < n {
                assert(fewer[k].event_id@ == id);
            }
        }
        assert(events[n] == events.last());
    }
}

/// **The count of a segment is that of its file, and the index that of the
/// disk**: an id is known exactly where an event on the disk has it.
pub proof fn law_event_index_is_that_of_the_disk(
    store: EventView,
    disk: Disk,
    p: spec_fn(Seq<char>) -> Result<EnvironmentalEvent, String>,
    i: int,
    id: Seq<char>,
)
    requires
        events_on_disk(store, disk, p),
        0 <= i < store.segments.len(),
    ensures
        store.segments[i].records == records_in(disk[store.segments[i].name], p).len(),
        store.seen.contains(id) <==> exists|k: int|
            0 <= k < events_on(store, disk, p).len() && (#[trigger] events_on(
                store,
                disk,
                p,
            )[k]).event_id@ == id,
{
    assert(counts(store.segments[i], disk, p));
    lemma_id_of_some_event(events_on(store, disk, p), id);
}

/// **What a directory opens as**: one segment for each listed file, under its
/// name, with the count of the events that were read; an index of their ids,
/// and of no others; the number after that of the last file to go on with;
/// room for at least one event in each segment.
pub proof fn law_opened_event_store_on_fields(
    listing: Seq<Listed>,
    batches: Seq<Batch<EnvironmentalEvent>>,
    segment_max_records: usize,
    store: EventView,
    i: int,
    id: Seq<char>,
)
    requires
        store == event_store_of(listing, batches, segment_max_records),
        batches.len() == listing.len(),
    ensures
        store.segments.len() == listing.len(),
        0 <= i < listing.len() ==> store.segments[i].name == listing[i].0
            && store.segments[i].records == batches[i].records@.len(),
        store.seen.contains(id) <==> exists|b: int, k: int|
            0 <= b < batches.len() && 0 <= k < batches[b].records@.len()
                && #[trigger] batches[b].records@[k].event_id@ == id,
        listing.len() == 0 ==> store.next_segment_index == 0,
        listing.len() > 0 && listing.last().1 < u64::MAX ==> store.next_segment_index
            == listing.last().1 + 1,
        store.unterminated <==> batches.len() > 0 && batches.last().unterminated,
        segment_max_records > 0 ==> store.segment_max_records == segment_max_records,
        segment_max_records == 0 ==> store.segment_max_records == 1,
{
    let all = chain(batches);
    lemma_id_of_some_event(all, id);
    lemma_chained(batches);
    if 0 <= i < listing.len() {
        assert(batches[i].records@.len() == batches[i].records.len());
    }
    if exists|b: int, k: int|
        0 <= b < batches.len() && 0 <= k < batches[b].records@.len()
            && #[trigger] batches[b].records@[k].event_id@ == id {
        let (b, k) = choose|b: int, k: int|
            0 <= b < batches.len() && 0 <= k < batches[b].records@.len()
                && #[trigger] batches[b].records@[k].event_id@ == id;
        assert(all.contains(batches[b].records@[k]));
        let m = choose|m: int| 0 <= m < all.len() && all[m] == batches[b].records@[k];
        assert(all[m].event_id@ == id);
    }
    if ids_of(all).contains(id) {
        let m = choose|m: int| 0 <= m < all.len() && (#[trigger] all[m]).event_id@ == id;
        assert(all.contains(all[m]));
        let (b, k) = choose|b: int, k: int|
            0 <= b < batches.len() && 0 <= k < batches[b].records@.len()
                && #[trigger] batches[b].records@[k] == all[m];
        assert(batches[b].records@[k].event_id@ == id);
    }
}

/// **What opening gives**: a store over the segment files among the names, in
/// the order of their names, each with the count of what was read from it, that
/// knows the ids of the events that were read and no others.
pub proof fn law_open_gives_the_events_read<
    R: Fn(&String) -> Result<Vec<u8>, StoreError>,
    F: Fn(&str) -> Result<EnvironmentalEvent, String>,
>(
    names: Seq<String>,
    segment_max_records: usize,
    read: R,
    parse: F,
    store: EventView,
    repair: Option<Repair>,
)
    requires
        open_events_yields(names, segment_max_records, read, parse, Ok((store, repair))),
    ensures
        ({
            let listing = listing_of(names, "evt"@);
            &&& store.segments.len() == listing.len()
            &&& forall|i: int|
                0 <= i < listing.len() ==> (#[trigger] store.segments[i]).name == listing[i].0
            &&& listing.len() == 0 ==> store.next_segment_index == 0
            &&& listing.len() > 0 && listing.last().1 < u64::MAX ==> store.next_segment_index
                == listing.last().1 + 1
            &&& exists|batches: Seq<Batch<EnvironmentalEvent>>|
                {
                    &&& #[trigger] opened_prefix(listing, read, parse, batches)
                    &&& batches.len() == listing.len()
                    &&& repair_needed(listing, batches, repair)
                    &&& forall|i: int|
                        0 <= i < batches.len() ==> store.segments[i].records == (
                        #[trigger] batches[i]).records@.len()
                    &&& forall|id: Seq<char>| #[trigger]
                        store.seen.contains(id) <==> exists|b: int, k: int|
                            0 <= b < batches.len() && 0 <= k < batches[b].records@.len()
                                && #[trigger] batches[b].records@[k].event_id@ == id
                    &&& store.unterminated <==> batches.len() > 0 && batches.last().unterminated
                }
        }),
        segment_max_records > 0 ==> store.segment_max_records == segment_max_records,
        segment_max_records == 0 ==> store.segment_max_records == 1,
{
    let listing = listing_of(names, "evt"@);
    let batches = choose|batches: Seq<Batch<EnvironmentalEvent>>| #[trigger]
        opened_prefix(listing, read, parse, batches) && batches.len() == listing.len() && store
            == event_store_of(listing, batches, segment_max_records) && repair_needed(
            listing,
            batches,
            repair,
        );
    let none = Seq::<char>::empty();
    law_opened_event_store_on_fields(listing, batches, segment_max_records, store, 0, none);
    assert forall|i: int| 0 <= i < batches.len() implies store.segments[i].records == (
    #[trigger] batches[i]).records@.len() by {
        law_opened_event_store_on_fields(listing, batches, segment_max_records, store, i, none);
    }
    assert forall|id: Seq<char>| #[trigger]
        store.seen.contains(id) <==> exists|b: int, k: int|
            0 <= b < batches.len() && 0 <= k < batches[b].records@.len()
                && #[trigger] batches[b].records@[k].event_id@ == id by {
        law_opened_event_store_on_fields(listing, batches, segment_max_records, store, 0, id);
    }
}

/// **When an event is valid**: the verdict on its location is good, it has an
/// id and a biome, is certain to a degree from zero to one, its window ends no
/// earlier than it starts, and it has evidence; nothing else about it has a
/// say. What is wrong with the location comes before all else, and each other
/// error is that of its own field.
pub proof fn law_event_is_valid_where(
    event: EnvironmentalEvent,
    geo: Result<(), EnvError>,
    confidence_bits: u32,
)
    ensures
        event.fault(geo, confidence_bits) is Ok <==> {
            &&& geo is Ok
            &&& event.event_id@.len() > 0
            &&& event.biome_id@.len() > 0
            &&& confidence_bits <= 0x3F80_0000 || confidence_bits == 0x8000_0000
            &&& event.window_start_ns <= event.window_end_ns
            &&& event.evidence@.len() > 0
        },
        geo is Err ==> event.fault(geo, confidence_bits) == geo,
        geo is Ok ==> match event.fault(geo, confidence_bits) {
            Ok(()) => true,
            Err(EnvError::MissingField(field)) => {
                ||| field == "event_id" && event.event_id@.len() == 0
                ||| field == "biome_id" && event.event_id@.len() > 0 && event.biome_id@.len() == 0
                ||| {
                    &&& field == "evidence"
                    &&& event.evidence@.len() == 0
                    &&& event.event_id@.len() > 0
                    &&& event.biome_id@.len() > 0
                    &&& event.window_start_ns <= event.window_end_ns
                    &&& confidence_bits <= 0x3F80_0000 || confidence_bits == 0x8000_0000
                }
            },
            Err(EnvError::QualityOutOfRange(bits)) => {
                &&& bits == confidence_bits
                &&& 0x3F80_0000 < bits
                &&& bits != 0x8000_0000
                &&& event.event_id@.len() > 0
                &&& event.biome_id@.len() > 0
            },
            Err(EnvError::TimeInverted { measured_ns, received_ns }) => {
                &&& measured_ns == event.window_start_ns
                &&& received_ns == event.window_end_ns
                &&& received_ns < measured_ns
                &&& confidence_bits <= 0x3F80_0000 || confidence_bits == 0x8000_0000
                &&& event.event_id@.len() > 0
                &&& event.biome_id@.len() > 0
            },
            Err(_) => false,
        },
{
}

/// **What decides on an append**: the event's own fault first, then whether its
/// id is known, then whether there is an encoding. A duplicate changes nothing;
/// a failed append makes nothing known and adds no event.
pub proof fn law_append_event_is_decided_by<
    W: FnOnce(&String, &Vec<u8>) -> Result<(), StoreError>,
>(
    before: EventView,
    event: EnvironmentalEvent,
    geo: Result<(), EnvError>,
    confidence_bits: u32,
    line: Result<Vec<u8>, String>,
    write: W,
    result: Result<AppendOutcome, StoreError>,
    after: EventView,
)
    requires
        append_event_yields(before, event, geo, confidence_bits, line, write, result, after),
    ensures
        ({
            let valid = {
                &&& geo is Ok
                &&& event.event_id@.len() > 0
                &&& event.biome_id@.len() > 0
                &&& confidence_bits <= 0x3F80_0000 || confidence_bits == 0x8000_0000
                &&& event.window_start_ns <= event.window_end_ns
                &&& event.evidence@.len() > 0
            };
            let known = before.seen.contains(event.event_id@);
            &&& !valid ==> result is Err && result->Err_0 is Core && after == before
            &&& result == Ok::<AppendOutcome, StoreError>(AppendOutcome::Duplicate) <==> valid
                && known
            &&& valid && known ==> after == before
            &&& valid && !known && line is Err ==> result == Err::<AppendOutcome, StoreError>(
                StoreError::Core(EnvError::Invalid(line->Err_0)),
            )
            &&& valid && !known && line is Ok && result is Err ==> exists|n: String, v: Vec<u8>|
             #[trigger]
                call_ensures(write, (&n, &v), Err(result->Err_0))
        }),
        result is Err ==> after.seen == before.seen && total_events(after.segments) == total_events(
            before.segments,
        ),
        after.segment_max_records == before.segment_max_records,
{
    if before.must_roll() {
        assert(before.rolled().segments.drop_last() =~= before.segments);
    }
}

/// **What an append adds.** The event goes to the last segment, or, where there
/// is none or it holds `segment_max_records`, to a new one with the next number
/// in its name; that segment alone changes, by one event, the line was written
/// to its file, and the id is known from then on.
pub proof fn law_append_adds_one_event<W: FnOnce(&String, &Vec<u8>) -> Result<(), StoreError>>(
    before: EventView,
    event: EnvironmentalEvent,
    geo: Result<(), EnvError>,
    confidence_bits: u32,
    line: Vec<u8>,
    write: W,
    after: EventView,
    id: Seq<char>,
)
    requires
        before.has_room(),
        append_event_yields(
            before,
            event,
            geo,
            confidence_bits,
            Ok(line),
            write,
            Ok(AppendOutcome::Appended),
            after,
        ),
    ensures
        after.seen.contains(id) <==> before.seen.contains(id) || id == event.event_id@,
        !after.unterminated,
        ({
            let n = before.segments.len();
            let last = after.segments.last();
            let full = n == 0 || before.segments[n - 1].records >= before.segment_max_records;
            &&& full ==> {
                &&& after.segments.len() == n + 1
                &&& after.segments.drop_last() == before.segments
                &&& last.name == file_name("evt"@, before.next_segment_index)
                &&& last.records == 1
                &&& after.next_segment_index == before.next_segment_index + 1
            }
            &&& !full ==> {
                &&& after.segments.len() == n
                &&& after.segments.drop_last() == before.segments.drop_last()
                &&& last.name == before.segments[n - 1].name
                &&& last.records == before.segments[n - 1].records + 1
                &&& after.next_segment_index == before.next_segment_index
            }
        }),
        ({
            let n = before.segments.len();
            let full = n == 0 || before.segments[n - 1].records >= before.segment_max_records;
            exists|name: String, bytes: Vec<u8>|
                {
                    &&& name@ == after.segments.last().name
                    &&& bytes@ == if !full && before.unterminated {
                        seq![10u8] + line@.push(10u8)
                    } else {
                        line@.push(10u8)
                    }
                    &&& #[trigger] call_ensures(write, (&name, &bytes), Ok(()))
                }
        }),
{
    let n = before.segments.len();
    if before.must_roll() {
        assert(after.segments.drop_last() =~= before.segments);
    } else {
        assert(before.segments[n - 1].records <= total_events(before.segments));
        assert(after.segments.drop_last() =~= before.segments.drop_last());
    }
    let rolled = before.rolled();
    let whole = line@.push(10u8);
    assert(Seq::<u8>::empty() + whole =~= whole);
    assert(written(write, rolled.segments.last().name, rolled.handed_out(line@), Ok(())));
}

/// **What is written for an append**: to the file of the last segment, or of
/// the new one, the line and a newline, with a newline in front where the
/// file lacks one; and for an event that is turned away, nothing.
pub proof fn law_append_event_writes_one_line(
    before: EventView,
    event: EnvironmentalEvent,
    geo: Result<(), EnvError>,
    confidence_bits: u32,
    line: Result<Vec<u8>, String>,
    name: Seq<char>,
    bytes: Seq<u8>,
)
    ensures
        ({
            let n = before.segments.len();
            let full = n == 0 || before.segments[n - 1].records >= before.segment_max_records;
            event_write_due(before, event, geo, confidence_bits, line, name, bytes) <==> {
                &&& event.fault(geo, confidence_bits) is Ok
                &&& !before.seen.contains(event.event_id@)
                &&& line is Ok
                &&& full ==> name == file_name("evt"@, before.next_segment_index) && bytes
                    == line->Ok_0@.push(10u8)
                &&& !full ==> name == before.segments[n - 1].name
                &&& !full && before.unterminated ==> bytes == seq![10u8] + line->Ok_0@.push(10u8)
                &&& !full && !before.unterminated ==> bytes == line->Ok_0@.push(10u8)
            }
        }),
{
    if line is Ok {
        let whole = line->Ok_0@.push(10u8);
        assert(Seq::<u8>::empty() + whole =~= whole);
    }
}

/// **When there is room**: as long as the count of events and the number of the
/// next segment are below the limits of their machine types.
pub proof fn law_event_room_ends_at_machine_limits(store: EventView)
    ensures
        store.in_bounds() <==> total_events(store.segments) <= usize::MAX,
        store.has_room() <==> total_events(store.segments) < usize::MAX && store.next_segment_index
            < u64::MAX,
{
}

/// **The most recent events are the last that were appended**: as many as were
/// asked for, or all there are, in the order in which they were appended.
pub proof fn law_recent_events_are_the_last<
    R: Fn(&String) -> Result<Vec<u8>, StoreError>,
    F: Fn(&str) -> Result<EnvironmentalEvent, String>,
>(
    store: EventView,
    disk: Disk,
    p: spec_fn(Seq<char>) -> Result<EnvironmentalEvent, String>,
    limit: nat,
    read: R,
    parse: F,
    result: Result<Vec<EnvironmentalEvent>, StoreError>,
)
    requires
        events_on_disk(store, disk, p),
        serves(read, disk),
        computes(parse, p),
        recent_of(event_names(store.segments), limit, read, parse, result),
    ensures
        result is Ok,
        ({
            let all = events_on(store, disk, p);
            let recent = result->Ok_0@;
            &&& all.len() >= limit ==> recent.len() == limit
            &&& all.len() < limit ==> recent.len() == all.len()
            &&& forall|i: int|
                0 <= i < recent.len() ==> #[trigger] recent[i] == all[all.len() - recent.len() + i]
        }),
{
    let (strings, all) = choose|
        strings: Seq<String>,
        all: Result<Vec<EnvironmentalEvent>, StoreError>,
    |
        texts(strings) == event_names(store.segments) && #[trigger] replay_yields(
            strings,
            read,
            parse,
            all,
        ) && match (all, result) {
            (Ok(all), Ok(result)) => result@ == last_items(all@, limit),
            (Err(a), Err(b)) => a == b,
            _ => false,
        };
    law_replay_gives_events_back(store, disk, p, strings, read, parse, all);
}

} // verus!

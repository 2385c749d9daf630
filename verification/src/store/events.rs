//! `EventStore`: the segmented, append-only event log, deduplicated by event
//! id. Events are kept for years, so nothing expires here.

use crate::error::{AppendOutcome, EnvError, StoreError};
use crate::model::event::EnvironmentalEvent;
use crate::store::lines::{frame_line, framed, gap};
use crate::store::load::{
    chain, keep_last, last_items, load_segment, load_yields, open_fails, opened_prefix,
    recent_of, repair_needed, replay, replay_yields, written, Batch, Repair,
};
use crate::store::segment::{
    file_name, lemma_listed_entry, list_segments, listing_of, listing_view, segment_file_name,
    segment_index, Listed,
};
use crate::text::texts;
use vstd::hash_set::StringHashSet;
use vstd::prelude::*;
use vstd::string::*;

verus! {

/// One event segment, as values.
#[verifier::ext_equal]
pub struct EventSegment {
    pub name: Seq<char>,
    pub records: usize,
}

/// The event store, as values.
#[verifier::ext_equal]
pub struct EventView {
    pub segment_max_records: usize,
    pub seen: Set<Seq<char>>,
    pub segments: Seq<EventSegment>,
    pub unterminated: bool,
    pub next_segment_index: u64,
}

/// The events of all segments, counted.
pub open spec fn total_events(segments: Seq<EventSegment>) -> nat
    decreases segments.len(),
{
    if segments.len() == 0 {
        0
    } else {
        total_events(segments.drop_last()) + segments.last().records as nat
    }
}

impl EventView {
    /// The number of events fits its machine type.
    pub open spec fn in_bounds(self) -> bool {
        total_events(self.segments) <= usize::MAX
    }

    /// One more event can be counted and one more segment numbered.
    pub open spec fn has_room(self) -> bool {
        &&& total_events(self.segments) < usize::MAX
        &&& self.next_segment_index < u64::MAX
    }

    /// Whether the next event needs a new segment.
    pub open spec fn must_roll(self) -> bool {
        self.segments.len() == 0 || self.segments.last().records >= self.segment_max_records
    }

    /// The store with a segment that can take the next event.
    pub open spec fn rolled(self) -> EventView {
        if self.must_roll() {
            EventView {
                segments: self.segments.push(
                    EventSegment {
                        name: file_name("evt"@, self.next_segment_index),
                        records: 0,
                    },
                ),
                unterminated: false,
                next_segment_index: (self.next_segment_index + 1) as u64,
                ..self
            }
        } else {
            self
        }
    }

    /// What is to be appended to the last segment for one more event: the
    /// newline that the event in front may lack, the line and its newline.
    pub open spec fn handed_out(self, line: Seq<u8>) -> Seq<u8> {
        gap(self.unterminated) + framed(line, true)
    }

    /// The store with one more event in its last segment.
    pub open spec fn with_event(self, event: EnvironmentalEvent) -> EventView {
        let last = self.segments.last();
        EventView {
            seen: self.seen.insert(event.event_id@),
            segments: self.segments.update(
                self.segments.len() - 1,
                EventSegment { records: (last.records + 1) as usize, ..last },
            ),
            unterminated: false,
            ..self
        }
    }
}

/// One live event segment.
struct SegmentState {
    name: String,
    records: usize,
}

impl SegmentState {
    spec fn view(&self) -> EventSegment {
        EventSegment { name: self.name@, records: self.records }
    }
}

/// Append-only store for [`EnvironmentalEvent`]s, deduplicated by `event_id`.
///
/// Events live in segment files `evt-NNNNNN.jsonl` of at most
/// `segment_max_records` lines, one event each. The files themselves are read
/// and written through functions that the caller hands in.
pub struct EventStore {
    segment_max_records: usize,
    /// Every `event_id` ever appended.
    seen: StringHashSet,
    segments: Vec<SegmentState>,
    /// Whether the last line of the last segment lacks its newline.
    unterminated: bool,
    next_segment_index: u64,
}

impl View for EventStore {
    type V = EventView;

    closed spec fn view(&self) -> EventView {
        EventView {
            segment_max_records: self.segment_max_records,
            seen: self.seen@,
            segments: self.segments@.map_values(|s: SegmentState| s.view()),
            unterminated: self.unterminated,
            next_segment_index: self.next_segment_index,
        }
    }
}

/// The bytes are to be appended to the named file: the event is valid and new
/// and has an encoding, and the bytes are what is handed out for it. In all
/// other cases nothing is written.
pub open spec fn event_write_due(
    before: EventView,
    event: EnvironmentalEvent,
    geo: Result<(), EnvError>,
    confidence_bits: u32,
    line: Result<Vec<u8>, String>,
    name: Seq<char>,
    bytes: Seq<u8>,
) -> bool {
    &&& event.fault(geo, confidence_bits) is Ok
    &&& !before.seen.contains(event.event_id@)
    &&& line is Ok
    &&& name == before.rolled().segments.last().name
    &&& bytes == before.rolled().handed_out(line->Ok_0@)
}

/// `result` and `after` are what an append owes, from the state `before`.
pub open spec fn append_event_yields<W: FnOnce(&String, &Vec<u8>) -> Result<(), StoreError>>(
    before: EventView,
    event: EnvironmentalEvent,
    geo: Result<(), EnvError>,
    confidence_bits: u32,
    line: Result<Vec<u8>, String>,
    write: W,
    result: Result<AppendOutcome, StoreError>,
    after: EventView,
) -> bool {
    match event.fault(geo, confidence_bits) {
        Err(fault) => result == Err::<AppendOutcome, StoreError>(StoreError::Core(fault)) && after
            == before,
        Ok(()) => if before.seen.contains(event.event_id@) {
            result == Ok::<AppendOutcome, StoreError>(AppendOutcome::Duplicate) && after == before
        } else {
            let rolled = before.rolled();
            match line {
                Err(reason) => result == Err::<AppendOutcome, StoreError>(
                    StoreError::Core(EnvError::Invalid(reason)),
                ) && after == rolled,
                Ok(line) => {
                    ||| {
                        &&& result == Ok::<AppendOutcome, StoreError>(AppendOutcome::Appended)
                        &&& after == rolled.with_event(event)
                        &&& written(
                            write,
                            rolled.segments.last().name,
                            rolled.handed_out(line@),
                            Ok(()),
                        )
                    }
                    ||| {
                        &&& result is Err
                        &&& after == rolled
                        &&& written(
                            write,
                            rolled.segments.last().name,
                            rolled.handed_out(line@),
                            Err(result->Err_0),
                        )
                    }
                },
            }
        },
    }
}

/// The ids of the events.
pub open spec fn ids_of(events: Seq<EnvironmentalEvent>) -> Set<Seq<char>>
    decreases events.len(),
{
    if events.len() == 0 {
        Set::empty()
    } else {
        ids_of(events.drop_last()).insert(events.last().event_id@)
    }
}

/// The store that a directory opens as, given what its files hold.
pub open spec fn event_store_of(
    listing: Seq<Listed>,
    batches: Seq<Batch<EnvironmentalEvent>>,
    segment_max_records: usize,
) -> EventView {
    EventView {
        segment_max_records: if segment_max_records == 0 {
            1
        } else {
            segment_max_records
        },
        seen: ids_of(chain(batches)),
        segments: Seq::new(
            batches.len(),
            |i: int|
                EventSegment {
                    name: listing[i].0,
                    records: batches[i].records@.len() as usize,
                },
        ),
        unterminated: batches.len() > 0 && batches.last().unterminated,
        next_segment_index: if batches.len() == 0 {
            0
        } else {
            (listing[batches.len() - 1].1 + 1) as u64
        },
    }
}

/// `result` is what opening a directory owes: the store of what its files
/// hold, with the repair of a torn tail if one is needed, or the error of
/// the first file that does not load.
pub open spec fn open_events_yields<
    R: Fn(&String) -> Result<Vec<u8>, StoreError>,
    F: Fn(&str) -> Result<EnvironmentalEvent, String>,
>(
    names: Seq<String>,
    segment_max_records: usize,
    read: R,
    parse: F,
    result: Result<(EventView, Option<Repair>), StoreError>,
) -> bool {
    let listing = listing_of(names, "evt"@);
    match result {
        Ok((store, repair)) => exists|batches: Seq<Batch<EnvironmentalEvent>>| #[trigger]
            opened_prefix(listing, read, parse, batches) && batches.len() == listing.len() && store
                == event_store_of(listing, batches, segment_max_records) && repair_needed(
                listing,
                batches,
                repair,
            ),
        Err(error) => open_fails::<EnvironmentalEvent, R, F>(listing, read, parse, error),
    }
}

/// The names of the segments.
pub open spec fn event_names(segments: Seq<EventSegment>) -> Seq<Seq<char>> {
    segments.map_values(|s: EventSegment| s.name)
}

/// Ids of a longer list.
proof fn lemma_ids_of_add(a: Seq<EnvironmentalEvent>, b: Seq<EnvironmentalEvent>)
    ensures
        ids_of(a + b) == ids_of(a).union(ids_of(b)),
    decreases b.len(),
{
    if b.len() == 0 {
        assert(a + b =~= a);
        assert(ids_of(a).union(ids_of(b)) =~= ids_of(a));
    } else {
        assert((a + b).drop_last() =~= a + b.drop_last());
        lemma_ids_of_add(a, b.drop_last());
        assert(ids_of(a + b) =~= ids_of(a).union(ids_of(b)));
    }
}

/// Counting one more segment.
proof fn lemma_total_next(segments: Seq<EventSegment>, k: int)
    requires
        0 <= k < segments.len(),
    ensures
        total_events(segments.take(k + 1)) == total_events(segments.take(k)) + segments[k].records,
        total_events(segments.take(k + 1)) <= total_events(segments),
    decreases segments.len(),
{
    assert(segments.take(k + 1).drop_last() =~= segments.take(k));
    if k == segments.len() - 1 {
        assert(segments.take(k + 1) =~= segments);
    } else {
        lemma_total_next(segments.drop_last(), k);
        assert(segments.drop_last().take(k + 1) =~= segments.take(k + 1));
    }
}

impl EventStore {
    /// Open a store over a directory, given the names of its files: the
    /// segments are read in order of their names through `read`, to rebuild
    /// the dedup index, which knows all events since none expires. Recovery is
    /// that of the observation store. A
    /// `segment_max_records` of `0` is treated as `1`.
    pub fn open<
        R: Fn(&String) -> Result<Vec<u8>, StoreError>,
        F: Fn(&str) -> Result<EnvironmentalEvent, String>,
    >(names: &Vec<String>, segment_max_records: usize, read: &R, parse: &F) -> (result: Result<
        (EventStore, Option<Repair>),
        StoreError,
    >)
        requires
            forall|i: int|
                0 <= i < names.len() ==> segment_index(#[trigger] names[i]@, "evt"@) != Some(
                    u64::MAX,
                ),
            forall|n: &String| #[trigger] call_requires(*read, (n,)),
            forall|s: &str| #[trigger] call_requires(*parse, (s,)),
        ensures
            open_events_yields(
                names@,
                segment_max_records,
                *read,
                *parse,
                match result {
                    Ok((store, repair)) => Ok((store@, repair)),
                    Err(error) => Err(error),
                },
            ),
    {
        let listed = list_segments(names, "evt");
        let ghost listing = listing_of(names@, "evt"@);
        let n = listed.len();
        let mut seen = StringHashSet::new();
        let mut segments: Vec<SegmentState> = Vec::new();
        let mut unterminated = false;
        let mut next_segment_index: u64 = 0;
        let mut repair: Option<Repair> = None;
        let ghost mut batches: Seq<Batch<EnvironmentalEvent>> = Seq::empty();
        let mut i: usize = 0;
        assert(chain(batches) =~= Seq::empty());
        while i < n
            invariant
                i <= n,
                n == listed.len(),
                listing_view(listed@) == listing,
                listing == listing_of(names@, "evt"@),
                batches.len() == i,
                opened_prefix(listing, *read, *parse, batches),
                seen@ == ids_of(chain(batches)),
                unterminated == (i > 0 && batches.last().unterminated),
                segments@.len() == i,
                forall|k: int|
                    0 <= k < i ==> (#[trigger] segments@[k]).view() == (EventSegment {
                        name: listing[k].0,
                        records: batches[k].records@.len() as usize,
                    }),
                next_segment_index == if i == 0 {
                    0
                } else {
                    listing[i - 1].1 + 1
                },
                i < n ==> repair is None,
                i == n ==> repair_needed(listing, batches, repair),
                forall|k: int|
                    0 <= k < names.len() ==> segment_index(#[trigger] names[k]@, "evt"@) != Some(
                        u64::MAX,
                    ),
                forall|n: &String| #[trigger] call_requires(*read, (n,)),
                forall|s: &str| #[trigger] call_requires(*parse, (s,)),
            decreases n - i,
        {
            let name = listed[i].0.clone();
            let index = listed[i].1;
            proof {
                assert(listing[i as int] == (name@, index));
                lemma_listed_entry(names@, "evt"@, i as int);
            }
            let batch = match load_segment(&name, i + 1 == n, read, parse) {
                Ok(batch) => batch,
                Err(error) => {
                    assert(opened_prefix(listing, *read, *parse, batches));
                    return Err(error);
                },
            };
            let ghost extended = batches.push(batch);
            proof {
                assert(extended.drop_last() =~= batches);
                assert forall|k: int| 0 <= k < extended.len() implies load_yields(
                    (#[trigger] listing[k]).0,
                    k + 1 == listing.len(),
                    *read,
                    *parse,
                    Ok(extended[k]),
                ) by {
                    if k < batches.len() {
                        assert(extended[k] == batches[k]);
                    }
                }
            }
            if batch.torn && i + 1 == n {
                repair = Some(Repair { segment: name.clone(), size: batch.size });
            }
            let mut j: usize = 0;
            let ghost seen_before = seen@;
            assert(batch.records@.take(0) =~= Seq::empty());
            while j < batch.records.len()
                invariant
                    j <= batch.records.len(),
                    seen@ == seen_before.union(ids_of(batch.records@.take(j as int))),
                decreases batch.records.len() - j,
            {
                let ghost part = batch.records@.take(j + 1);
                assert(part.drop_last() =~= batch.records@.take(j as int));
                assert(part.last() == batch.records@[j as int]);
                seen.insert(batch.records[j].event_id.clone());
                assert(seen@ =~= seen_before.union(ids_of(part)));
                j += 1;
            }
            proof {
                assert(batch.records@.take(j as int) =~= batch.records@);
                lemma_ids_of_add(chain(batches), batch.records@);
                assert(extended[i as int] == batch);
                batches = extended;
            }
            segments.push(SegmentState { name, records: batch.records.len() });
            unterminated = batch.unterminated;
            next_segment_index = index + 1;
            i += 1;
        }
        let store = EventStore {
            segment_max_records: if segment_max_records == 0 {
                1
            } else {
                segment_max_records
            },
            seen,
            segments,
            unterminated,
            next_segment_index,
        };
        proof {
            let expected = event_store_of(listing, batches, segment_max_records);
            assert(store@.segments =~= expected.segments);
            assert(store@ =~= expected);
        }
        Ok((store, repair))
    }

    /// Append an event, deduplicating by `event_id`.
    ///
    /// The event is validated first, with `geo` as the verdict on its
    /// location and `confidence_bits` as the number of its confidence; `line`
    /// is its encoding. `write` is handed the name of the segment and the line
    /// with its newline, and must append the bytes to that file; the event
    /// counts as stored once it says so. It is called for an event that is to
    /// be stored, once, and for no other. Where the event in front lacks its
    /// newline, that newline comes first.
    pub fn append<W: FnOnce(&String, &Vec<u8>) -> Result<(), StoreError>>(
        &mut self,
        event: &EnvironmentalEvent,
        geo: Result<(), EnvError>,
        confidence_bits: u32,
        line: Result<Vec<u8>, String>,
        write: W,
    ) -> (result: Result<AppendOutcome, StoreError>)
        requires
            old(self)@.has_room(),
            forall|n: &String, v: &Vec<u8>|
                event_write_due(old(self)@, *event, geo, confidence_bits, line, n@, v@)
                    ==> #[trigger] call_requires(write, (n, v)),
        ensures
            append_event_yields(
                old(self)@,
                *event,
                geo,
                confidence_bits,
                line,
                write,
                result,
                final(self)@,
            ),
            final(self)@.in_bounds(),
    {
        let ghost before = self@;
        let ghost given = line;
        match event.validate(geo, confidence_bits) {
            Ok(()) => {},
            Err(fault) => {
                return Err(StoreError::Core(fault));
            },
        }
        if self.seen.contains(event.event_id.as_str()) {
            return Ok(AppendOutcome::Duplicate);
        }
        let n = self.segments.len();
        let roll = n == 0 || self.segments[n - 1].records >= self.segment_max_records;
        if roll {
            let name = segment_file_name("evt", self.next_segment_index);
            self.next_segment_index = self.next_segment_index + 1;
            self.segments.push(SegmentState { name, records: 0 });
            self.unterminated = false;
            proof {
                assert(self@.segments =~= before.rolled().segments);
                assert(self@.segments.drop_last() =~= before.segments);
            }
        }
        assert(self@ =~= before.rolled());
        let ghost rolled = self@;
        let line = match line {
            Ok(line) => line,
            Err(reason) => {
                return Err(StoreError::Core(EnvError::Invalid(reason)));
            },
        };
        let bytes = frame_line(line, self.unterminated);
        let last = self.segments.len() - 1;
        assert(event_write_due(
            before,
            *event,
            geo,
            confidence_bits,
            given,
            self.segments@[last as int].name@,
            bytes@,
        ));
        let outcome = write(&self.segments[last].name, &bytes);
        assert(written(write, rolled.segments.last().name, bytes@, outcome));
        match outcome {
            Ok(()) => {},
            Err(error) => {
                return Err(error);
            },
        }
        assert(outcome->Ok_0 == ());
        let ghost after = rolled.with_event(*event);
        proof {
            assert(after.segments.drop_last() =~= rolled.segments.drop_last());
        }
        self.seen.insert(event.event_id.clone());
        self.segments[last].records = self.segments[last].records + 1;
        self.unterminated = false;
        assert(self@.segments =~= after.segments);
        assert(self@ =~= after);
        Ok(AppendOutcome::Appended)
    }

    /// Whether the number of events fits its machine type.
    pub fn fits(&self) -> (fits: bool)
        ensures
            fits == self@.in_bounds(),
    {
        let mut n: usize = 0;
        let mut i: usize = 0;
        assert(self@.segments.len() == self.segments@.len());
        while i < self.segments.len()
            invariant
                i <= self.segments.len(),
                self@.segments.len() == self.segments@.len(),
                n == total_events(self@.segments.take(i as int)),
            decreases self.segments.len() - i,
        {
            proof {
                lemma_total_next(self@.segments, i as int);
                assert(self@.segments[i as int] == self.segments@[i as int].view());
            }
            if self.segments[i].records > usize::MAX - n {
                return false;
            }
            n = n + self.segments[i].records;
            i += 1;
        }
        assert(self@.segments.take(i as int) =~= self@.segments);
        true
    }

    /// Whether one more event can be taken in.
    pub fn can_append(&self) -> (can: bool)
        ensures
            can == self@.has_room(),
    {
        self.fits() && self.lines() < usize::MAX && self.next_segment_index < u64::MAX
    }

    /// Number of unique events stored.
    pub fn len(&self) -> (n: usize)
        ensures
            n == self@.seen.len(),
    {
        self.seen.len()
    }

    /// Number of events in all segment files.
    fn lines(&self) -> (n: usize)
        requires
            self@.in_bounds(),
        ensures
            n == total_events(self@.segments),
    {
        let mut n: usize = 0;
        let mut i: usize = 0;
        assert(self@.segments.len() == self.segments@.len());
        while i < self.segments.len()
            invariant
                i <= self.segments.len(),
                self@.in_bounds(),
                self@.segments.len() == self.segments@.len(),
                n == total_events(self@.segments.take(i as int)),
            decreases self.segments.len() - i,
        {
            proof {
                lemma_total_next(self@.segments, i as int);
                assert(self@.segments[i as int] == self.segments@[i as int].view());
            }
            n = n + self.segments[i].records;
            i += 1;
        }
        assert(self@.segments.take(i as int) =~= self@.segments);
        n
    }

    /// Whether no events are stored.
    pub fn is_empty(&self) -> (empty: bool)
        ensures
            empty == (self@.seen.len() == 0),
    {
        self.len() == 0
    }

    /// Live segment file names, in order.
    pub fn segments(&self) -> (names: Vec<String>)
        ensures
            texts(names@) == event_names(self@.segments),
    {
        let mut names: Vec<String> = Vec::new();
        let mut i: usize = 0;
        while i < self.segments.len()
            invariant
                i <= self.segments.len(),
                names@.len() == i,
                forall|k: int| 0 <= k < i ==> (#[trigger] names@[k])@ == self.segments@[k].name@,
            decreases self.segments.len() - i,
        {
            names.push(self.segments[i].name.clone());
            i += 1;
        }
        assert(texts(names@) =~= event_names(self@.segments));
        names
    }

    /// Full deterministic replay: every stored event, in append order, read
    /// back through `read`.
    pub fn iter<
        R: Fn(&String) -> Result<Vec<u8>, StoreError>,
        F: Fn(&str) -> Result<EnvironmentalEvent, String>,
    >(&self, read: &R, parse: &F) -> (result: Result<Vec<EnvironmentalEvent>, StoreError>)
        requires
            forall|n: &String| #[trigger] call_requires(*read, (n,)),
            forall|s: &str| #[trigger] call_requires(*parse, (s,)),
        ensures
            exists|names: Seq<String>|
                texts(names) == event_names(self@.segments) && #[trigger] replay_yields(
                    names,
                    *read,
                    *parse,
                    result,
                ),
    {
        let names = self.segments();
        replay(&names, read, parse)
    }

    /// The last `limit` events, in append order.
    pub fn recent<
        R: Fn(&String) -> Result<Vec<u8>, StoreError>,
        F: Fn(&str) -> Result<EnvironmentalEvent, String>,
    >(&self, limit: usize, read: &R, parse: &F) -> (result: Result<
        Vec<EnvironmentalEvent>,
        StoreError,
    >)
        requires
            forall|n: &String| #[trigger] call_requires(*read, (n,)),
            forall|s: &str| #[trigger] call_requires(*parse, (s,)),
        ensures
            exists|names: Seq<String>, all: Result<Vec<EnvironmentalEvent>, StoreError>|
                texts(names) == event_names(self@.segments) && #[trigger] replay_yields(
                    names,
                    *read,
                    *parse,
                    all,
                ) && match (all, result) {
                    (Ok(all), Ok(result)) => result@ == last_items(all@, limit as nat),
                    (Err(a), Err(b)) => a == b,
                    _ => false,
                },
            recent_of(event_names(self@.segments), limit as nat, *read, *parse, result),
    {
        let names = self.segments();
        let all = replay(&names, read, parse);
        let ghost all_given = all;
        assert(replay_yields(names@, *read, *parse, all_given));
        match all {
            Ok(all) => Ok(keep_last(all, limit)),
            Err(error) => Err(error),
        }
    }
}

} // verus!

//! `ObservationStore`: the segmented, append-only sample log with a persistent
//! dedup index and retention.

use crate::error::{AppendOutcome, EnvError, StoreError};
use crate::model::keys::{insert_keys, list_keys};
use crate::model::sample::EnvSample;
use crate::store::lines::{frame_line, framed, gap};
use crate::store::load::{
    chain, keep_last, last_items, load_segment, load_yields, open_fails, opened_prefix,
    recent_of, repair_needed, replay, replay_yields, written, Batch, Repair,
};
use crate::store::segment::{
    file_name, lemma_listed_entry, list_segments, listing_of, listing_view, segment_file_name,
    segment_index, Listed,
};
use crate::text::texts;
use std::collections::BTreeSet;
use vstd::prelude::*;
use vstd::seq_lib::seq_to_set_is_finite;
use vstd::string::*;

verus! {

/// Store health counters and sizes.
///
/// `records`, `segments` and `bytes_on_disk` describe what is stored; the
/// `*_total` counters count operations since the store was opened.
#[derive(Debug, Clone, Copy, PartialEq, Eq, Structural)]
pub struct StoreStats {
    /// Unique records currently stored.
    pub records: u64,
    /// Number of live segment files.
    pub segments: u64,
    /// Samples appended since open.
    pub appended_total: u64,
    /// Duplicate appends rejected since open.
    pub duplicates_total: u64,
    /// Records deleted by retention since open.
    pub retention_deleted_total: u64,
    /// Sum of the segment sizes in bytes, as tracked.
    pub bytes_on_disk: u64,
}

/// Metadata for one segment file, rebuilt on open and updated on append.
#[derive(Debug, Clone, PartialEq, Eq)]
pub struct SegmentInfo {
    /// Segment file name (such as `obs-000002.jsonl`).
    pub name: String,
    /// Number of records in the segment.
    pub records: usize,
    /// Smallest `measured_ns` in the segment (`u64::MAX` while empty).
    pub min_measured_ns: u64,
    /// Largest `measured_ns` in the segment (`0` while empty).
    pub max_measured_ns: u64,
}

/// One segment, as values.
#[verifier::ext_equal]
pub struct SegmentView {
    pub name: Seq<char>,
    pub keys: Set<(u64, u32)>,
    pub records: usize,
    pub min_measured_ns: u64,
    pub max_measured_ns: u64,
    pub bytes: u64,
}

/// The store, as values.
#[verifier::ext_equal]
pub struct ObservationView {
    pub segment_max_records: usize,
    pub seen: Set<(u64, u32)>,
    pub segments: Seq<SegmentView>,
    pub unterminated: bool,
    pub next_segment_index: u64,
    pub appended_total: u64,
    pub duplicates_total: u64,
    pub retention_deleted_total: u64,
}

/// The smaller of two times.
pub open spec fn earlier(a: u64, b: u64) -> u64 {
    if b < a {
        b
    } else {
        a
    }
}

/// The larger of two times.
pub open spec fn later(a: u64, b: u64) -> u64 {
    if b > a {
        b
    } else {
        a
    }
}

impl SegmentView {
    /// An empty segment about to receive its first record.
    pub open spec fn empty(name: Seq<char>) -> SegmentView {
        SegmentView {
            name,
            keys: Set::empty(),
            records: 0,
            min_measured_ns: u64::MAX,
            max_measured_ns: 0,
            bytes: 0,
        }
    }

    /// The segment with one more record, written as `size` bytes.
    pub open spec fn grown(self, sample: EnvSample, size: int) -> SegmentView {
        SegmentView {
            name: self.name,
            keys: self.keys.insert(sample.key()),
            records: (self.records + 1) as usize,
            min_measured_ns: earlier(self.min_measured_ns, sample.measured_ns),
            max_measured_ns: later(self.max_measured_ns, sample.measured_ns),
            bytes: (self.bytes + size) as u64,
        }
    }

    /// Whether the newest measurement of the segment has expired.
    pub open spec fn expired(self, now_ns: u64, retention_ns: u64) -> bool {
        self.max_measured_ns + retention_ns <= now_ns
    }
}

/// The keys of the records in the segments.
pub open spec fn stored_keys(segments: Seq<SegmentView>) -> Set<(u64, u32)>
    decreases segments.len(),
{
    if segments.len() == 0 {
        Set::empty()
    } else {
        stored_keys(segments.drop_last()).union(segments.last().keys)
    }
}

/// The records of all segments, counted.
pub open spec fn total_records(segments: Seq<SegmentView>) -> nat
    decreases segments.len(),
{
    if segments.len() == 0 {
        0
    } else {
        total_records(segments.drop_last()) + segments.last().records as nat
    }
}

/// The bytes of all segments, summed.
pub open spec fn total_bytes(segments: Seq<SegmentView>) -> nat
    decreases segments.len(),
{
    if segments.len() == 0 {
        0
    } else {
        total_bytes(segments.drop_last()) + segments.last().bytes as nat
    }
}

impl ObservationView {
    /// The totals fit their machine types.
    pub open spec fn in_bounds(self) -> bool {
        &&& total_records(self.segments) <= usize::MAX
        &&& total_bytes(self.segments) <= u64::MAX
    }

    /// No counter is at its machine limit, and one more line of `line_len`
    /// bytes keeps the totals in bounds.
    pub open spec fn has_room(self, line_len: int) -> bool {
        &&& total_records(self.segments) < usize::MAX
        &&& total_bytes(self.segments) + gap(self.rolled().unterminated).len() + line_len + 1
            <= u64::MAX
        &&& self.next_segment_index < u64::MAX
        &&& self.appended_total < u64::MAX
        &&& self.duplicates_total < u64::MAX
    }

    /// Whether the next record needs a new segment.
    pub open spec fn must_roll(self) -> bool {
        self.segments.len() == 0 || self.segments.last().records >= self.segment_max_records
    }

    /// The store with a segment that can take the next record.
    pub open spec fn rolled(self) -> ObservationView {
        if self.must_roll() {
            ObservationView {
                segments: self.segments.push(
                    SegmentView::empty(file_name("obs"@, self.next_segment_index)),
                ),
                unterminated: false,
                next_segment_index: (self.next_segment_index + 1) as u64,
                ..self
            }
        } else {
            self
        }
    }

    /// What is to be appended to the last segment for one more record: the
    /// newline that the record in front may lack, the line and its newline.
    pub open spec fn handed_out(self, line: Seq<u8>) -> Seq<u8> {
        gap(self.unterminated) + framed(line, true)
    }

    /// The store with one more record in its last segment, written as `size`
    /// bytes.
    pub open spec fn with_record(self, sample: EnvSample, size: int) -> ObservationView {
        ObservationView {
            seen: self.seen.insert(sample.key()),
            segments: self.segments.update(
                self.segments.len() - 1,
                self.segments.last().grown(sample, size),
            ),
            unterminated: false,
            appended_total: (self.appended_total + 1) as u64,
            ..self
        }
    }

    /// The store after a duplicate was turned away.
    pub open spec fn with_duplicate(self) -> ObservationView {
        ObservationView { duplicates_total: (self.duplicates_total + 1) as u64, ..self }
    }
}

/// One live segment: public metadata plus the keys of its records and its
/// tracked byte size.
struct SegmentState {
    info: SegmentInfo,
    keys: Vec<(u64, u32)>,
    bytes: u64,
}

impl SegmentState {
    spec fn view(&self) -> SegmentView {
        SegmentView {
            name: self.info.name@,
            keys: self.keys@.to_set(),
            records: self.info.records,
            min_measured_ns: self.info.min_measured_ns,
            max_measured_ns: self.info.max_measured_ns,
            bytes: self.bytes,
        }
    }
}

/// Append-only store for [`EnvSample`]s.
///
/// Samples live in segment files `obs-NNNNNN.jsonl` of at most
/// `segment_max_records` lines, one sample each. Only the dedup keys and the
/// metadata of the segments are held in memory. The files themselves are
/// read and written through functions that the caller hands in.
pub struct ObservationStore {
    segment_max_records: usize,
    /// Every dedup key ever appended, kept even after retention.
    seen: BTreeSet<(u64, u32)>,
    segments: Vec<SegmentState>,
    /// Whether the last line of the last segment lacks its newline.
    unterminated: bool,
    next_segment_index: u64,
    appended_total: u64,
    duplicates_total: u64,
    retention_deleted_total: u64,
}

impl View for ObservationStore {
    type V = ObservationView;

    closed spec fn view(&self) -> ObservationView {
        ObservationView {
            segment_max_records: self.segment_max_records,
            seen: self.seen@,
            segments: self.segments@.map_values(|s: SegmentState| s.view()),
            unterminated: self.unterminated,
            next_segment_index: self.next_segment_index,
            appended_total: self.appended_total,
            duplicates_total: self.duplicates_total,
            retention_deleted_total: self.retention_deleted_total,
        }
    }
}

impl SegmentInfo {
    /// An empty segment about to receive its first record.
    pub fn empty(name: String) -> (info: SegmentInfo)
        ensures
            info.name == name,
            info.records == 0,
            info.min_measured_ns == u64::MAX,
            info.max_measured_ns == 0,
    {
        SegmentInfo { name, records: 0, min_measured_ns: u64::MAX, max_measured_ns: 0 }
    }

    /// Count one more record.
    fn count(&mut self, measured_ns: u64)
        requires
            old(self).records < usize::MAX,
        ensures
            final(self).name == old(self).name,
            final(self).records == old(self).records + 1,
            final(self).min_measured_ns == earlier(old(self).min_measured_ns, measured_ns),
            final(self).max_measured_ns == later(old(self).max_measured_ns, measured_ns),
    {
        self.records = self.records + 1;
        if measured_ns < self.min_measured_ns {
            self.min_measured_ns = measured_ns;
        }
        if measured_ns > self.max_measured_ns {
            self.max_measured_ns = measured_ns;
        }
    }
}

/// The bytes are to be appended to the named file: the sample passes its check,
/// is new and has an encoding, and the bytes are what is handed out for it. In
/// all other cases nothing is written.
pub open spec fn write_due(
    before: ObservationView,
    sample: EnvSample,
    check: Result<(), EnvError>,
    line: Result<Vec<u8>, String>,
    name: Seq<char>,
    bytes: Seq<u8>,
) -> bool {
    &&& check is Ok
    &&& !before.seen.contains(sample.key())
    &&& line is Ok
    &&& name == before.rolled().segments.last().name
    &&& bytes == before.rolled().handed_out(line->Ok_0@)
}

/// `result` and `after` are what an append owes, from the state `before`.
pub open spec fn append_yields<W: FnOnce(&String, &Vec<u8>) -> Result<(), StoreError>>(
    before: ObservationView,
    sample: EnvSample,
    check: Result<(), EnvError>,
    line: Result<Vec<u8>, String>,
    write: W,
    result: Result<AppendOutcome, StoreError>,
    after: ObservationView,
) -> bool {
    match check {
        Err(fault) => result == Err::<AppendOutcome, StoreError>(StoreError::Core(fault)) && after
            == before,
        Ok(()) => if before.seen.contains(sample.key()) {
            result == Ok::<AppendOutcome, StoreError>(AppendOutcome::Duplicate) && after
                == before.with_duplicate()
        } else {
            let rolled = before.rolled();
            match line {
                Err(reason) => result == Err::<AppendOutcome, StoreError>(
                    StoreError::Core(EnvError::Invalid(reason)),
                ) && after == rolled,
                Ok(line) => {
                    ||| {
                        &&& result == Ok::<AppendOutcome, StoreError>(AppendOutcome::Appended)
                        &&& after == rolled.with_record(
                            sample,
                            rolled.handed_out(line@).len() as int,
                        )
                        &&& written(
                            write,
                            rolled.segments.last().name,
                            rolled.handed_out(line@),
                            Ok(()),
                        )
                    }
                    ||| {
                        &&& result is Err
                        &&& after == rolled
                        &&& written(
                            write,
                            rolled.segments.last().name,
                            rolled.handed_out(line@),
                            Err(result->Err_0),
                        )
                    }
                },
            }
        },
    }
}

/// Updating one segment moves the totals by the difference.
pub proof fn lemma_totals_update(segments: Seq<SegmentView>, i: int, s: SegmentView)
    requires
        0 <= i < segments.len(),
    ensures
        total_records(segments.update(i, s)) == total_records(segments) - segments[i].records
            + s.records,
        total_bytes(segments.update(i, s)) == total_bytes(segments) - segments[i].bytes + s.bytes,
    decreases segments.len(),
{
    let updated = segments.update(i, s);
    if i == segments.len() - 1 {
        assert(updated.drop_last() =~= segments.drop_last());
    } else {
        assert(updated.drop_last() =~= segments.drop_last().update(i, s));
        lemma_totals_update(segments.drop_last(), i, s);
    }
}

/// No segment holds more than the totals.
pub proof fn lemma_part_of_totals(segments: Seq<SegmentView>, i: int)
    requires
        0 <= i < segments.len(),
    ensures
        segments[i].records <= total_records(segments),
        segments[i].bytes <= total_bytes(segments),
    decreases segments.len(),
{
    if i < segments.len() - 1 {
        lemma_part_of_totals(segments.drop_last(), i);
    }
}

impl ObservationStore {
    /// Append a sample, deduplicating by its key.
    ///
    /// `check` is the verdict on the sample itself and `line` its encoding; a
    /// sample that fails either is not stored. A new segment starts when the
    /// current one holds `segment_max_records`. `write` is handed the name of
    /// the segment and the line with its newline, and must append the bytes
    /// to that file; the sample counts as stored once it says so. It is called
    /// for a sample that is to be stored, once, and for no other. Where the
    /// record in front lacks its newline, that newline comes first.
    pub fn append<W: FnOnce(&String, &Vec<u8>) -> Result<(), StoreError>>(
        &mut self,
        sample: &EnvSample,
        check: Result<(), EnvError>,
        line: Result<Vec<u8>, String>,
        write: W,
    ) -> (result: Result<AppendOutcome, StoreError>)
        requires
            old(self)@.has_room(
                if line is Ok {
                    line->Ok_0@.len() as int
                } else {
                    0
                },
            ),
            forall|n: &String, v: &Vec<u8>|
                write_due(old(self)@, *sample, check, line, n@, v@) ==> #[trigger] call_requires(
                    write,
                    (n, v),
                ),
        ensures
            append_yields(old(self)@, *sample, check, line, write, result, final(self)@),
            final(self)@.in_bounds(),
    {
        let ghost before = self@;
        let ghost given = line;
        match check {
            Ok(()) => {},
            Err(fault) => {
                return Err(StoreError::Core(fault));
            },
        }
        let key = sample.dedup_key();
        if self.seen.contains(&key) {
            self.duplicates_total = self.duplicates_total + 1;
            assert(self@ =~= before.with_duplicate());
            return Ok(AppendOutcome::Duplicate);
        }
        let n = self.segments.len();
        let roll = n == 0 || self.segments[n - 1].info.records >= self.segment_max_records;
        if roll {
            let name = segment_file_name("obs", self.next_segment_index);
            self.next_segment_index = self.next_segment_index + 1;
            self.segments.push(
                SegmentState { info: SegmentInfo::empty(name), keys: Vec::new(), bytes: 0 },
            );
            self.unterminated = false;
            proof {
                assert(self.segments@.last().keys@.to_set() =~= Set::empty());
                assert(self@.segments =~= before.rolled().segments);
                assert(self@.segments.drop_last() =~= before.segments);
            }
        }
        assert(self@ =~= before.rolled());
        let ghost rolled = self@;
        let line = match line {
            Ok(line) => line,
            Err(reason) => {
                return Err(StoreError::Core(EnvError::Invalid(reason)));
            },
        };
        let ghost line_len = line@.len();
        let bytes = frame_line(line, self.unterminated);
        let size = bytes.len() as u64;
        let last = self.segments.len() - 1;
        assert(write_due(
            before,
            *sample,
            check,
            given,
            self.segments@[last as int].info.name@,
            bytes@,
        ));
        let outcome = write(&self.segments[last].info.name, &bytes);
        assert(written(write, rolled.segments.last().name, bytes@, outcome));
        assert(size == gap(rolled.unterminated).len() + line_len + 1);
        match outcome {
            Ok(()) => {},
            Err(error) => {
                return Err(error);
            },
        }
        assert(outcome->Ok_0 == ());
        proof {
            lemma_part_of_totals(rolled.segments, last as int);
            lemma_totals_update(
                rolled.segments,
                last as int,
                rolled.segments.last().grown(*sample, size as int),
            );
            self.segments@[last as int].keys@.lemma_push_to_set_commute(key);
        }
        self.seen.insert(key);
        self.segments[last].info.count(sample.measured_ns);
        self.segments[last].keys.push(key);
        self.segments[last].bytes = self.segments[last].bytes + size;
        self.unterminated = false;
        self.appended_total = self.appended_total + 1;
        assert(self@ =~= rolled.with_record(*sample, size as int));
        Ok(AppendOutcome::Appended)
    }
}

/// The earliest measurement among the records, `u64::MAX` if there are none.
pub open spec fn min_measured(records: Seq<EnvSample>) -> u64
    decreases records.len(),
{
    if records.len() == 0 {
        u64::MAX
    } else {
        earlier(min_measured(records.drop_last()), records.last().measured_ns)
    }
}

/// The latest measurement among the records, `0` if there are none.
pub open spec fn max_measured(records: Seq<EnvSample>) -> u64
    decreases records.len(),
{
    if records.len() == 0 {
        0
    } else {
        later(max_measured(records.drop_last()), records.last().measured_ns)
    }
}

/// The keys of the records.
pub open spec fn keys_of(records: Seq<EnvSample>) -> Set<(u64, u32)>
    decreases records.len(),
{
    if records.len() == 0 {
        Set::empty()
    } else {
        keys_of(records.drop_last()).insert(records.last().key())
    }
}

/// The segment whose file holds these records in this many bytes.
pub open spec fn segment_of(
    name: Seq<char>,
    records: Seq<EnvSample>,
    bytes: u64,
) -> SegmentView {
    SegmentView {
        name,
        keys: keys_of(records),
        records: records.len() as usize,
        min_measured_ns: min_measured(records),
        max_measured_ns: max_measured(records),
        bytes,
    }
}

/// The store that a directory opens as, given what its files hold and the keys
/// that were kept beside them.
pub open spec fn store_of(
    listing: Seq<Listed>,
    batches: Seq<Batch<EnvSample>>,
    segment_max_records: usize,
    kept: Set<(u64, u32)>,
) -> ObservationView {
    ObservationView {
        segment_max_records: if segment_max_records == 0 {
            1
        } else {
            segment_max_records
        },
        seen: keys_of(chain(batches)).union(kept),
        segments: Seq::new(
            batches.len(),
            |i: int| segment_of(listing[i].0, batches[i].records@, batches[i].size),
        ),
        unterminated: batches.len() > 0 && batches.last().unterminated,
        next_segment_index: if batches.len() == 0 {
            0
        } else {
            (listing[batches.len() - 1].1 + 1) as u64
        },
        appended_total: 0,
        duplicates_total: 0,
        retention_deleted_total: 0,
    }
}

/// `result` is what opening a directory owes: the store of what its files
/// hold and of the keys kept beside them, with the repair of a torn tail if one
/// is needed, or the error of the first file that does not load.
pub open spec fn open_yields<
    R: Fn(&String) -> Result<Vec<u8>, StoreError>,
    F: Fn(&str) -> Result<EnvSample, String>,
>(
    names: Seq<String>,
    segment_max_records: usize,
    kept: Set<(u64, u32)>,
    read: R,
    parse: F,
    result: Result<(ObservationView, Option<Repair>), StoreError>,
) -> bool {
    let listing = listing_of(names, "obs"@);
    match result {
        Ok((store, repair)) => exists|batches: Seq<Batch<EnvSample>>| #[trigger]
            opened_prefix(listing, read, parse, batches) && batches.len() == listing.len() && store
                == store_of(listing, batches, segment_max_records, kept) && repair_needed(
                listing,
                batches,
                repair,
            ),
        Err(error) => open_fails::<EnvSample, R, F>(listing, read, parse, error),
    }
}

/// Keys of a longer list.
pub proof fn lemma_keys_of_add(a: Seq<EnvSample>, b: Seq<EnvSample>)
    ensures
        keys_of(a + b) == keys_of(a).union(keys_of(b)),
    decreases b.len(),
{
    if b.len() == 0 {
        assert(a + b =~= a);
        assert(keys_of(a).union(keys_of(b)) =~= keys_of(a));
    } else {
        assert((a + b).drop_last() =~= a + b.drop_last());
        lemma_keys_of_add(a, b.drop_last());
        assert(keys_of(a + b) =~= keys_of(a).union(keys_of(b)));
    }
}

impl ObservationStore {
    /// Open a store over a directory, given the names of its files: the
    /// segments are read in order of their names through `read`, to rebuild
    /// the dedup index and the segment metadata. `kept` are the keys that
    /// were saved from [`Self::seen_keys`] before files were deleted: with
    /// them the dedup index also knows the records that have expired.
    ///
    /// Crash recovery: a **final** line of the **final** segment that does
    /// not decode is left out, and the file must be cut back as the
    /// [`Repair`] says; a line anywhere else that does not decode is
    /// [`StoreError::Corrupt`]. A final record that lacks its newline is kept,
    /// and the next append puts the newline in front of its own line. A
    /// `segment_max_records` of `0` is treated as `1`.
    pub fn open<
        R: Fn(&String) -> Result<Vec<u8>, StoreError>,
        F: Fn(&str) -> Result<EnvSample, String>,
    >(
        names: &Vec<String>,
        segment_max_records: usize,
        kept: &Vec<(u64, u32)>,
        read: &R,
        parse: &F,
    ) -> (result: Result<(ObservationStore, Option<Repair>), StoreError>)
        requires
            forall|i: int|
                0 <= i < names.len() ==> segment_index(#[trigger] names[i]@, "obs"@) != Some(
                    u64::MAX,
                ),
            forall|n: &String| #[trigger] call_requires(*read, (n,)),
            forall|s: &str| #[trigger] call_requires(*parse, (s,)),
        ensures
            open_yields(
                names@,
                segment_max_records,
                kept@.to_set(),
                *read,
                *parse,
                match result {
                    Ok((store, repair)) => Ok((store@, repair)),
                    Err(error) => Err(error),
                },
            ),
    {
        let listed = list_segments(names, "obs");
        let ghost listing = listing_of(names@, "obs"@);
        let n = listed.len();
        let mut seen: BTreeSet<(u64, u32)> = BTreeSet::new();
        insert_keys(&mut seen, kept);
        let mut segments: Vec<SegmentState> = Vec::new();
        let mut unterminated = false;
        let mut next_segment_index: u64 = 0;
        let mut repair: Option<Repair> = None;
        let ghost mut batches: Seq<Batch<EnvSample>> = Seq::empty();
        let mut i: usize = 0;
        assert(chain(batches) =~= Seq::empty());
        assert(seen@ =~= keys_of(chain(batches)).union(kept@.to_set()));
        while i < n
            invariant
                i <= n,
                n == listed.len(),
                listing_view(listed@) == listing,
                listing == listing_of(names@, "obs"@),
                batches.len() == i,
                opened_prefix(listing, *read, *parse, batches),
                seen@ == keys_of(chain(batches)).union(kept@.to_set()),
                unterminated == (i > 0 && batches.last().unterminated),
                segments@.len() == i,
                forall|k: int|
                    0 <= k < i ==> (#[trigger] segments@[k]).view() == segment_of(
                        listing[k].0,
                        batches[k].records@,
                        batches[k].size,
                    ),
                next_segment_index == if i == 0 {
                    0
                } else {
                    listing[i - 1].1 + 1
                },
                i < n ==> repair is None,
                i == n ==> repair_needed(listing, batches, repair),
                forall|k: int|
                    0 <= k < names.len() ==> segment_index(#[trigger] names[k]@, "obs"@) != Some(
                        u64::MAX,
                    ),
                forall|n: &String| #[trigger] call_requires(*read, (n,)),
                forall|s: &str| #[trigger] call_requires(*parse, (s,)),
            decreases n - i,
        {
            let name = listed[i].0.clone();
            let index = listed[i].1;
            proof {
                assert(listing[i as int] == (name@, index));
                lemma_listed_entry(names@, "obs"@, i as int);
            }
            let batch = match load_segment(&name, i + 1 == n, read, parse) {
                Ok(batch) => batch,
                Err(error) => {
                    assert(opened_prefix(listing, *read, *parse, batches));
                    return Err(error);
                },
            };
            let ghost extended = batches.push(batch);
            proof {
                assert(extended.drop_last() =~= batches);
                assert forall|k: int| 0 <= k < extended.len() implies load_yields(
                    (#[trigger] listing[k]).0,
                    k + 1 == listing.len(),
                    *read,
                    *parse,
                    Ok(extended[k]),
                ) by {
                    if k < batches.len() {
                        assert(extended[k] == batches[k]);
                    }
                }
            }
            if batch.torn && i + 1 == n {
                repair = Some(Repair { segment: name.clone(), size: batch.size });
            }
            let mut info = SegmentInfo::empty(name);
            let mut keys: Vec<(u64, u32)> = Vec::new();
            let mut j: usize = 0;
            let ghost seen_before = seen@;
            assert(batch.records@.take(0) =~= Seq::empty());
            assert(keys@.to_set() =~= Set::empty());
            while j < batch.records.len()
                invariant
                    j <= batch.records.len(),
                    info.name == name,
                    info.records == j,
                    info.min_measured_ns == min_measured(batch.records@.take(j as int)),
                    info.max_measured_ns == max_measured(batch.records@.take(j as int)),
                    keys@.to_set() == keys_of(batch.records@.take(j as int)),
                    seen@ == seen_before.union(keys_of(batch.records@.take(j as int))),
                decreases batch.records.len() - j,
            {
                let ghost part = batch.records@.take(j + 1);
                assert(part.drop_last() =~= batch.records@.take(j as int));
                assert(part.last() == batch.records@[j as int]);
                let key = batch.records[j].dedup_key();
                proof {
                    keys@.lemma_push_to_set_commute(key);
                }
                seen.insert(key);
                keys.push(key);
                info.count(batch.records[j].measured_ns);
                assert(seen@ =~= seen_before.union(keys_of(part)));
                j += 1;
            }
            proof {
                assert(batch.records@.take(j as int) =~= batch.records@);
                lemma_keys_of_add(chain(batches), batch.records@);
                assert(extended[i as int] == batch);
                batches = extended;
                assert(seen@ =~= keys_of(chain(batches)).union(kept@.to_set()));
            }
            segments.push(SegmentState { info, keys, bytes: batch.size });
            unterminated = batch.unterminated;
            next_segment_index = index + 1;
            i += 1;
        }
        let store = ObservationStore {
            segment_max_records: if segment_max_records == 0 {
                1
            } else {
                segment_max_records
            },
            seen,
            segments,
            unterminated,
            next_segment_index,
            appended_total: 0,
            duplicates_total: 0,
            retention_deleted_total: 0,
        };
        proof {
            let expected = store_of(listing, batches, segment_max_records, kept@.to_set());
            assert(store@.segments =~= expected.segments);
            assert(store@ =~= expected);
        }
        Ok((store, repair))
    }
}

// ---------------------------------------------------------------------------
// Retention
// ---------------------------------------------------------------------------

/// The segments that have not expired.
pub open spec fn unexpired(
    segments: Seq<SegmentView>,
    now_ns: u64,
    retention_ns: u64,
) -> Seq<SegmentView> {
    segments.filter(|s: SegmentView| !s.expired(now_ns, retention_ns))
}

/// The segments that have expired.
pub open spec fn expired(
    segments: Seq<SegmentView>,
    now_ns: u64,
    retention_ns: u64,
) -> Seq<SegmentView> {
    segments.filter(|s: SegmentView| s.expired(now_ns, retention_ns))
}

/// All segments but the last one.
pub open spec fn closed_segments(segments: Seq<SegmentView>) -> Seq<SegmentView> {
    if segments.len() == 0 {
        segments
    } else {
        segments.drop_last()
    }
}

/// `outcome` can come out of asking to remove the named segment file.
pub open spec fn removal<D: Fn(&String) -> Result<(), StoreError>>(
    remove: D,
    name: Seq<char>,
    outcome: Result<(), StoreError>,
) -> bool {
    exists|n: String| n@ == name && #[trigger] call_ensures(remove, (&n,), outcome)
}

/// The name is that of an expired segment among these.
pub open spec fn is_expired_name(
    segments: Seq<SegmentView>,
    now_ns: u64,
    retention_ns: u64,
    name: Seq<char>,
) -> bool {
    exists|i: int|
        0 <= i < segments.len() && (#[trigger] segments[i]).expired(now_ns, retention_ns)
            && segments[i].name == name
}

/// Every expired segment among these was removed.
pub open spec fn all_removed<D: Fn(&String) -> Result<(), StoreError>>(
    segments: Seq<SegmentView>,
    now_ns: u64,
    retention_ns: u64,
    remove: D,
) -> bool {
    forall|i: int|
        0 <= i < segments.len() && (#[trigger] segments[i]).expired(now_ns, retention_ns)
            ==> removal(remove, segments[i].name, Ok(()))
}

/// The name is that of an expired segment among these, and those that come
/// before it and have expired were removed. No other file is to be removed.
pub open spec fn removal_due<D: Fn(&String) -> Result<(), StoreError>>(
    segments: Seq<SegmentView>,
    now_ns: u64,
    retention_ns: u64,
    remove: D,
    name: Seq<char>,
) -> bool {
    exists|i: int|
        {
            &&& 0 <= i < segments.len()
            &&& (#[trigger] segments[i]).expired(now_ns, retention_ns)
            &&& segments[i].name == name
            &&& all_removed(segments.take(i), now_ns, retention_ns, remove)
        }
}

/// `result` and `after` are what a retention pass owes, from the state
/// `before`: every expired segment but the last one is gone and counted, or
/// the pass stopped at the first file that could not be removed, with the
/// segments before it dealt with and counted.
pub open spec fn retention_yields<D: Fn(&String) -> Result<(), StoreError>>(
    before: ObservationView,
    now_ns: u64,
    retention_ns: u64,
    remove: D,
    result: Result<u64, StoreError>,
    after: ObservationView,
) -> bool {
    let closed = closed_segments(before.segments);
    match result {
        Ok(deleted) => {
            &&& deleted == total_records(expired(closed, now_ns, retention_ns))
            &&& all_removed(closed, now_ns, retention_ns, remove)
            &&& after == ObservationView {
                segments: unexpired(closed, now_ns, retention_ns) + before.segments.skip(
                    closed.len() as int,
                ),
                retention_deleted_total: (before.retention_deleted_total + deleted) as u64,
                ..before
            }
        },
        Err(error) => exists|k: int|
            {
                &&& 0 <= k < closed.len()
                &&& (#[trigger] closed[k]).expired(now_ns, retention_ns)
                &&& removal(remove, closed[k].name, Err(error))
                &&& all_removed(closed.take(k), now_ns, retention_ns, remove)
                &&& after == ObservationView {
                    segments: unexpired(closed.take(k), now_ns, retention_ns)
                        + before.segments.skip(k),
                    retention_deleted_total: (before.retention_deleted_total + total_records(
                        expired(closed.take(k), now_ns, retention_ns),
                    )) as u64,
                    ..before
                }
            },
    }
}

/// Going one segment further, it is either kept or dropped.
pub proof fn lemma_retention_step(
    segments: Seq<SegmentView>,
    k: int,
    now_ns: u64,
    retention_ns: u64,
)
    requires
        0 <= k < segments.len(),
    ensures
        segments[k].expired(now_ns, retention_ns) ==> {
            &&& unexpired(segments.take(k + 1), now_ns, retention_ns) == unexpired(
                segments.take(k),
                now_ns,
                retention_ns,
            )
            &&& expired(segments.take(k + 1), now_ns, retention_ns) == expired(
                segments.take(k),
                now_ns,
                retention_ns,
            ).push(segments[k])
        },
        !segments[k].expired(now_ns, retention_ns) ==> {
            &&& unexpired(segments.take(k + 1), now_ns, retention_ns) == unexpired(
                segments.take(k),
                now_ns,
                retention_ns,
            ).push(segments[k])
            &&& expired(segments.take(k + 1), now_ns, retention_ns) == expired(
                segments.take(k),
                now_ns,
                retention_ns,
            )
        },
{
    reveal(Seq::filter);
    assert(segments.take(k + 1).drop_last() =~= segments.take(k));
    assert(segments.take(k + 1).last() == segments[k]);
}

/// What is dropped and what is kept make up the whole.
pub proof fn lemma_retention_totals(segments: Seq<SegmentView>, now_ns: u64, retention_ns: u64)
    ensures
        total_records(expired(segments, now_ns, retention_ns)) + total_records(
            unexpired(segments, now_ns, retention_ns),
        ) == total_records(segments),
        total_bytes(expired(segments, now_ns, retention_ns)) + total_bytes(
            unexpired(segments, now_ns, retention_ns),
        ) == total_bytes(segments),
    decreases segments.len(),
{
    reveal(Seq::filter);
    if segments.len() > 0 {
        let n = segments.len() - 1;
        lemma_retention_totals(segments.drop_last(), now_ns, retention_ns);
        lemma_retention_step(segments, n, now_ns, retention_ns);
        assert(segments.take(n + 1) =~= segments);
        assert(segments.take(n) =~= segments.drop_last());
        let e = expired(segments.drop_last(), now_ns, retention_ns);
        let u = unexpired(segments.drop_last(), now_ns, retention_ns);
        assert(e.push(segments[n]).drop_last() =~= e);
        assert(u.push(segments[n]).drop_last() =~= u);
    }
}

/// Totals over a concatenation.
pub proof fn lemma_totals_add(a: Seq<SegmentView>, b: Seq<SegmentView>)
    ensures
        total_records(a + b) == total_records(a) + total_records(b),
        total_bytes(a + b) == total_bytes(a) + total_bytes(b),
    decreases b.len(),
{
    if b.len() == 0 {
        assert(a + b =~= a);
    } else {
        assert((a + b).drop_last() =~= a + b.drop_last());
        lemma_totals_add(a, b.drop_last());
    }
}

impl ObservationStore {
    /// Delete whole segments whose newest measurement has expired:
    /// `max_measured_ns + retention_ns <= now_ns`. Gives the number of records
    /// deleted.
    ///
    /// `remove` is handed the name of each such file, and of no other, and must
    /// remove it; the pass stops at the first one it cannot remove. No segment is ever
    /// rewritten. The last segment is never deleted. Dedup keys of deleted
    /// records are kept, so an expired sample that comes again is still a
    /// duplicate; save [`Self::seen_keys`] before the pass, and that also holds
    /// after a restart.
    pub fn enforce_retention<D: Fn(&String) -> Result<(), StoreError>>(
        &mut self,
        now_ns: u64,
        retention_ns: u64,
        remove: &D,
    ) -> (result: Result<u64, StoreError>)
        requires
            old(self)@.in_bounds(),
            old(self)@.retention_deleted_total + total_records(old(self)@.segments) <= u64::MAX,
            forall|n: &String|
                removal_due(
                    closed_segments(old(self)@.segments),
                    now_ns,
                    retention_ns,
                    *remove,
                    n@,
                ) ==> #[trigger] call_requires(*remove, (n,)),
        ensures
            retention_yields(old(self)@, now_ns, retention_ns, *remove, result, final(self)@),
            final(self)@.in_bounds(),
    {
        let ghost before = self@;
        let ghost closed = closed_segments(before.segments);
        let ghost mut k: int = 0;
        let mut deleted: u64 = 0;
        let mut i: usize = 0;
        proof {
            reveal(Seq::filter);
            assert(closed.take(0) =~= Seq::empty());
            assert(before.segments.skip(0) =~= before.segments);
            assert(unexpired(closed.take(0), now_ns, retention_ns) =~= Seq::empty());
            assert(expired(closed.take(0), now_ns, retention_ns) =~= Seq::empty());
            assert(self@.segments =~= unexpired(closed.take(0), now_ns, retention_ns)
                + before.segments.skip(0));
        }
        while i < self.segments.len() && self.segments.len() - i > 1
            invariant
                before == old(self)@,
                before.in_bounds(),
                before.retention_deleted_total + total_records(before.segments) <= u64::MAX,
                closed == closed_segments(before.segments),
                0 <= k <= closed.len(),
                i == unexpired(closed.take(k), now_ns, retention_ns).len(),
                self@ == (ObservationView {
                    segments: unexpired(closed.take(k), now_ns, retention_ns)
                        + before.segments.skip(k),
                    ..before
                }),
                deleted == total_records(expired(closed.take(k), now_ns, retention_ns)),
                all_removed(closed.take(k), now_ns, retention_ns, *remove),
                forall|n: &String|
                    removal_due(closed, now_ns, retention_ns, *remove, n@)
                        ==> #[trigger] call_requires(*remove, (n,)),
            decreases closed.len() - k,
        {
            let ghost kept = unexpired(closed.take(k), now_ns, retention_ns);
            let ghost rest = before.segments.skip(k);
            proof {
                assert(self@.segments.len() == self.segments@.len());
                assert(k < closed.len());
                assert(self@.segments[i as int] == rest[0]);
                assert(rest[0] == closed[k]);
                assert(self@.segments[i as int] == self.segments@[i as int].view());
                lemma_retention_step(closed, k, now_ns, retention_ns);
                lemma_retention_totals(closed.take(k + 1), now_ns, retention_ns);
                lemma_totals_add(closed.take(k + 1), before.segments.skip(k + 1));
                assert(closed.take(k + 1) + before.segments.skip(k + 1) =~= before.segments);
                assert(rest.drop_first() =~= before.segments.skip(k + 1));
            }
            let newest = self.segments[i].info.max_measured_ns;
            if newest <= now_ns && retention_ns <= now_ns - newest {
                assert(closed[k].expired(now_ns, retention_ns));
                assert(removal_due(closed, now_ns, retention_ns, *remove, closed[k].name));
                let outcome = remove(&self.segments[i].info.name);
                assert(removal(*remove, closed[k].name, outcome));
                match outcome {
                    Ok(()) => {
                        assert(outcome->Ok_0 == ());
                    },
                    Err(error) => {
                        proof {
                            lemma_totals_add(kept, rest);
                            lemma_retention_totals(closed.take(k), now_ns, retention_ns);
                            lemma_totals_add(closed.take(k), rest);
                            assert(closed.take(k) + rest =~= before.segments);
                        }
                        self.retention_deleted_total = self.retention_deleted_total + deleted;
                        return Err(error);
                    },
                }
                proof {
                    let gone = expired(closed.take(k), now_ns, retention_ns);
                    assert(gone.push(closed[k]).drop_last() =~= gone);
                    assert forall|j: int|
                        0 <= j < closed.take(k + 1).len() && (#[trigger] closed.take(
                            k + 1,
                        )[j]).expired(now_ns, retention_ns) implies removal(
                        *remove,
                        closed.take(k + 1)[j].name,
                        Ok(()),
                    ) by {
                        if j < k {
                            assert(closed.take(k + 1)[j] == closed.take(k)[j]);
                        }
                    }
                }
                let ghost listed = self@.segments;
                deleted = deleted + self.segments[i].info.records as u64;
                self.segments.remove(i);
                assert(self@.segments =~= listed.remove(i as int));
                assert(self@.segments =~= kept + before.segments.skip(k + 1));
            } else {
                proof {
                    assert forall|j: int|
                        0 <= j < closed.take(k + 1).len() && (#[trigger] closed.take(
                            k + 1,
                        )[j]).expired(now_ns, retention_ns) implies removal(
                        *remove,
                        closed.take(k + 1)[j].name,
                        Ok(()),
                    ) by {
                        assert(j < k);
                        assert(closed.take(k + 1)[j] == closed.take(k)[j]);
                    }
                    assert(self@.segments =~= kept.push(closed[k]) + before.segments.skip(k + 1));
                }
                i += 1;
            }
            proof {
                k = k + 1;
            }
        }
        proof {
            assert(self@.segments.len() == self.segments@.len());
            assert(k == closed.len());
            assert(closed.take(k) =~= closed);
            lemma_retention_totals(closed, now_ns, retention_ns);
            lemma_totals_add(closed, before.segments.skip(k));
            assert(closed + before.segments.skip(k) =~= before.segments);
            lemma_totals_add(unexpired(closed, now_ns, retention_ns), before.segments.skip(k));
        }
        self.retention_deleted_total = self.retention_deleted_total + deleted;
        Ok(deleted)
    }
}

// ---------------------------------------------------------------------------
// Looking at the store
// ---------------------------------------------------------------------------

/// The names of the segments.
pub open spec fn names_of(segments: Seq<SegmentView>) -> Seq<Seq<char>> {
    segments.map_values(|s: SegmentView| s.name)
}

/// The counters and sizes of a store.
pub open spec fn stats_of(store: ObservationView) -> StoreStats {
    StoreStats {
        records: stored_keys(store.segments).len() as u64,
        segments: store.segments.len() as u64,
        appended_total: store.appended_total,
        duplicates_total: store.duplicates_total,
        retention_deleted_total: store.retention_deleted_total,
        bytes_on_disk: total_bytes(store.segments) as u64,
    }
}

/// The totals grow along the segments.
proof fn lemma_totals_prefix(segments: Seq<SegmentView>, k: int)
    requires
        0 <= k <= segments.len(),
    ensures
        total_records(segments.take(k)) <= total_records(segments),
        total_bytes(segments.take(k)) <= total_bytes(segments),
{
    lemma_totals_add(segments.take(k), segments.skip(k));
    assert(segments.take(k) + segments.skip(k) =~= segments);
}

/// One segment more in the totals.
proof fn lemma_totals_next(segments: Seq<SegmentView>, k: int)
    requires
        0 <= k < segments.len(),
    ensures
        total_records(segments.take(k + 1)) == total_records(segments.take(k))
            + segments[k].records,
        total_bytes(segments.take(k + 1)) == total_bytes(segments.take(k)) + segments[k].bytes,
{
    assert(segments.take(k + 1).drop_last() =~= segments.take(k));
}

impl ObservationStore {
    /// Whether the totals fit their machine types.
    pub fn fits(&self) -> (fits: bool)
        ensures
            fits == self@.in_bounds(),
    {
        let mut records: usize = 0;
        let mut bytes: u64 = 0;
        let mut i: usize = 0;
        assert(self@.segments.len() == self.segments@.len());
        while i < self.segments.len()
            invariant
                i <= self.segments.len(),
                self@.segments.len() == self.segments@.len(),
                records == total_records(self@.segments.take(i as int)),
                bytes == total_bytes(self@.segments.take(i as int)),
            decreases self.segments.len() - i,
        {
            proof {
                lemma_totals_next(self@.segments, i as int);
                lemma_totals_prefix(self@.segments, i + 1);
                assert(self@.segments[i as int] == self.segments@[i as int].view());
            }
            if self.segments[i].info.records > usize::MAX - records || self.segments[i].bytes
                > u64::MAX - bytes {
                return false;
            }
            records = records + self.segments[i].info.records;
            bytes = bytes + self.segments[i].bytes;
            i += 1;
        }
        assert(self@.segments.take(i as int) =~= self@.segments);
        true
    }

    /// Whether one more line of `line_len` bytes can be taken in.
    pub fn can_append(&self, line_len: usize) -> (can: bool)
        ensures
            can == self@.has_room(line_len as int),
    {
        if !self.fits() {
            return false;
        }
        let stats = self.stats();
        let n = self.segments.len();
        let roll = n == 0 || self.segments[n - 1].info.records >= self.segment_max_records;
        let own: u64 = if !roll && self.unterminated {
            2
        } else {
            1
        };
        assert(self@.must_roll() == roll);
        assert(self@.rolled().unterminated == (!roll && self.unterminated));
        self.lines() < usize::MAX && stats.bytes_on_disk <= u64::MAX - own && u64::MAX - own
            - stats.bytes_on_disk >= line_len as u64 && self.next_segment_index < u64::MAX
            && self.appended_total < u64::MAX && self.duplicates_total < u64::MAX
    }

    /// The dedup index, each key once: what to save before files are deleted
    /// and to hand to [`Self::open`].
    pub fn seen_keys(&self) -> (keys: Vec<(u64, u32)>)
        ensures
            keys@.to_set() == self@.seen,
            keys@.no_duplicates(),
    {
        list_keys(&self.seen)
    }

    /// Number of unique records currently stored. After retention this can be
    /// smaller than the dedup index, whose keys are kept forever.
    pub fn len(&self) -> (n: usize)
        ensures
            stored_keys(self@.segments).finite(),
            n == stored_keys(self@.segments).len(),
    {
        let mut keys: BTreeSet<(u64, u32)> = BTreeSet::new();
        let mut i: usize = 0;
        assert(self@.segments.len() == self.segments@.len());
        while i < self.segments.len()
            invariant
                i <= self.segments.len(),
                self@.segments.len() == self.segments@.len(),
                keys@.finite(),
                keys@ == stored_keys(self@.segments.take(i as int)),
            decreases self.segments.len() - i,
        {
            proof {
                let more = self@.segments.take(i + 1);
                assert(more.drop_last() =~= self@.segments.take(i as int));
                assert(more.last() == self.segments@[i as int].view());
                seq_to_set_is_finite(self.segments@[i as int].keys@);
            }
            insert_keys(&mut keys, &self.segments[i].keys);
            i += 1;
        }
        assert(self@.segments.take(i as int) =~= self@.segments);
        keys.len()
    }

    /// Number of records in all segment files.
    fn lines(&self) -> (n: usize)
        requires
            self@.in_bounds(),
        ensures
            n == total_records(self@.segments),
    {
        let mut n: usize = 0;
        let mut i: usize = 0;
        assert(self@.segments.len() == self.segments@.len());
        while i < self.segments.len()
            invariant
                i <= self.segments.len(),
                self@.in_bounds(),
                self@.segments.len() == self.segments@.len(),
                n == total_records(self@.segments.take(i as int)),
            decreases self.segments.len() - i,
        {
            proof {
                lemma_totals_next(self@.segments, i as int);
                lemma_totals_prefix(self@.segments, i + 1);
                assert(self@.segments[i as int] == self.segments@[i as int].view());
            }
            n = n + self.segments[i].info.records;
            i += 1;
        }
        assert(self@.segments.take(i as int) =~= self@.segments);
        n
    }

    /// Whether no records are currently stored.
    pub fn is_empty(&self) -> (empty: bool)
        ensures
            stored_keys(self@.segments).finite(),
            empty == (stored_keys(self@.segments).len() == 0),
    {
        self.len() == 0
    }

    /// Live segment file names, in order.
    pub fn segments(&self) -> (names: Vec<String>)
        ensures
            texts(names@) == names_of(self@.segments),
    {
        let mut names: Vec<String> = Vec::new();
        let mut i: usize = 0;
        while i < self.segments.len()
            invariant
                i <= self.segments.len(),
                names@.len() == i,
                forall|k: int| 0 <= k < i ==> (#[trigger] names@[k])@ == self.segments@[k].info.name@,
            decreases self.segments.len() - i,
        {
            names.push(self.segments[i].info.name.clone());
            i += 1;
        }
        assert(texts(names@) =~= names_of(self@.segments));
        names
    }

    /// Per-segment metadata, in segment order.
    pub fn segment_infos(&self) -> (infos: Vec<SegmentInfo>)
        ensures
            infos@.len() == self@.segments.len(),
            forall|i: int|
                0 <= i < infos@.len() ==> {
                    let info = #[trigger] infos@[i];
                    let segment = self@.segments[i];
                    &&& info.name@ == segment.name
                    &&& info.records == segment.records
                    &&& info.min_measured_ns == segment.min_measured_ns
                    &&& info.max_measured_ns == segment.max_measured_ns
                },
    {
        let mut infos: Vec<SegmentInfo> = Vec::new();
        let mut i: usize = 0;
        while i < self.segments.len()
            invariant
                i <= self.segments.len(),
                infos@.len() == i,
                forall|k: int|
                    0 <= k < i ==> {
                        let info = #[trigger] infos@[k];
                        let own = self.segments@[k].info;
                        &&& info.name@ == own.name@
                        &&& info.records == own.records
                        &&& info.min_measured_ns == own.min_measured_ns
                        &&& info.max_measured_ns == own.max_measured_ns
                    },
            decreases self.segments.len() - i,
        {
            let own = &self.segments[i].info;
            infos.push(
                SegmentInfo {
                    name: own.name.clone(),
                    records: own.records,
                    min_measured_ns: own.min_measured_ns,
                    max_measured_ns: own.max_measured_ns,
                },
            );
            i += 1;
        }
        infos
    }

    /// Full deterministic replay: every stored sample, in append order, read
    /// back through `read`.
    pub fn iter<
        R: Fn(&String) -> Result<Vec<u8>, StoreError>,
        F: Fn(&str) -> Result<EnvSample, String>,
    >(&self, read: &R, parse: &F) -> (result: Result<Vec<EnvSample>, StoreError>)
        requires
            forall|n: &String| #[trigger] call_requires(*read, (n,)),
            forall|s: &str| #[trigger] call_requires(*parse, (s,)),
        ensures
            exists|names: Seq<String>|
                texts(names) == names_of(self@.segments) && #[trigger] replay_yields(
                    names,
                    *read,
                    *parse,
                    result,
                ),
    {
        let names = self.segments();
        replay(&names, read, parse)
    }

    /// The last `limit` records, in append order.
    pub fn recent<
        R: Fn(&String) -> Result<Vec<u8>, StoreError>,
        F: Fn(&str) -> Result<EnvSample, String>,
    >(&self, limit: usize, read: &R, parse: &F) -> (result: Result<Vec<EnvSample>, StoreError>)
        requires
            forall|n: &String| #[trigger] call_requires(*read, (n,)),
            forall|s: &str| #[trigger] call_requires(*parse, (s,)),
        ensures
            exists|names: Seq<String>, all: Result<Vec<EnvSample>, StoreError>|
                texts(names) == names_of(self@.segments) && #[trigger] replay_yields(
                    names,
                    *read,
                    *parse,
                    all,
                ) && match (all, result) {
                    (Ok(all), Ok(result)) => result@ == last_items(all@, limit as nat),
                    (Err(a), Err(b)) => a == b,
                    _ => false,
                },
            recent_of(names_of(self@.segments), limit as nat, *read, *parse, result),
    {
        let names = self.segments();
        let all = replay(&names, read, parse);
        let ghost all_given = all;
        assert(replay_yields(names@, *read, *parse, all_given));
        match all {
            Ok(all) => Ok(keep_last(all, limit)),
            Err(error) => Err(error),
        }
    }

    /// Current counters and sizes.
    pub fn stats(&self) -> (stats: StoreStats)
        requires
            self@.in_bounds(),
        ensures
            stats == (StoreStats {
                records: stored_keys(self@.segments).len() as u64,
                segments: self@.segments.len() as u64,
                appended_total: self@.appended_total,
                duplicates_total: self@.duplicates_total,
                retention_deleted_total: self@.retention_deleted_total,
                bytes_on_disk: total_bytes(self@.segments) as u64,
            }),
            stats == stats_of(self@),
    {
        let mut bytes: u64 = 0;
        let mut i: usize = 0;
        assert(self@.segments.len() == self.segments@.len());
        while i < self.segments.len()
            invariant
                i <= self.segments.len(),
                self@.in_bounds(),
                self@.segments.len() == self.segments@.len(),
                bytes == total_bytes(self@.segments.take(i as int)),
            decreases self.segments.len() - i,
        {
            proof {
                lemma_totals_next(self@.segments, i as int);
                lemma_totals_prefix(self@.segments, i + 1);
                assert(self@.segments[i as int] == self.segments@[i as int].view());
            }
            bytes = bytes + self.segments[i].bytes;
            i += 1;
        }
        assert(self@.segments.take(i as int) =~= self@.segments);
        StoreStats {
            records: self.len() as u64,
            segments: self.segments.len() as u64,
            appended_total: self.appended_total,
            duplicates_total: self.duplicates_total,
            retention_deleted_total: self.retention_deleted_total,
            bytes_on_disk: bytes,
        }
    }
}

} // verus!

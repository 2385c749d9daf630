//! What the observation store does, said on the fields of samples, segments
//! and counters.

use crate::error::{AppendOutcome, EnvError, StoreError};
use crate::model::sample::EnvSample;
use crate::store::layout::lemma_names_distinct;
use crate::store::lines::{computes, records_in};
use crate::store::load::{
    chain, last_items, opened_prefix, recent_of, repair_needed, replay_yields, serves, written,
    Batch, Disk, Repair,
};
use crate::store::observation_laws::{
    describes, distinct_keys, file_sizes, law_bytes_are_file_sizes, law_len_counts_samples,
    law_replay_gives_back, lemma_keys_contains, on_disk, samples_on,
};
use crate::store::observations::{
    append_yields, closed_segments, expired, keys_of, max_measured, min_measured, names_of,
    open_yields, removal_due, retention_yields, stats_of, store_of, total_bytes, total_records,
    unexpired, write_due, ObservationView, SegmentView,
};
use crate::store::segment::{file_name, listing_of, Listed};
use crate::text::texts;
use vstd::prelude::*;

verus! {

// ---------------------------------------------------------------------------
// Samples and segments
// ---------------------------------------------------------------------------

/// **Two samples are the same where node and sequence number are**, whatever
/// else they hold.
pub proof fn law_samples_are_told_apart_by(a: EnvSample, b: EnvSample)
    ensures
        a.key() == b.key() <==> a.node_id == b.node_id && a.sequence == b.sequence,
        a.key() == (a.node_id, a.sequence),
{
}

/// What the keys and the times of a list of records are.
pub proof fn lemma_records_in_fields(records: Seq<EnvSample>)
    ensures
        forall|node_id: u64, sequence: u32| #[trigger]
            keys_of(records).contains((node_id, sequence)) <==> exists|k: int|
                0 <= k < records.len() && (#[trigger] records[k]).node_id == node_id
                    && records[k].sequence == sequence,
        forall|k: int|
            0 <= k < records.len() ==> min_measured(records) <= (#[trigger] records[k]).measured_ns
                <= max_measured(records),
        records.len() > 0 ==> exists|k: int|
            0 <= k < records.len() && (#[trigger] records[k]).measured_ns == min_measured(records),
        records.len() > 0 ==> exists|k: int|
            0 <= k < records.len() && (#[trigger] records[k]).measured_ns == max_measured(records),
        records.len() == 0 ==> min_measured(records) == u64::MAX && max_measured(records) == 0,
    decreases records.len(),
{
    assert forall|node_id: u64, sequence: u32| #[trigger]
        keys_of(records).contains((node_id, sequence)) <==> exists|k: int|
            0 <= k < records.len() && (#[trigger] records[k]).node_id == node_id
                && records[k].sequence == sequence by {
        lemma_keys_contains(records, (node_id, sequence));
        if keys_of(records).contains((node_id, sequence)) {
            let k = choose|k: int|
                0 <= k < records.len() && #[trigger] records[k].key() == (node_id, sequence);
            assert(records[k].node_id == node_id && records[k].sequence == sequence);
        }
        if exists|k: int|
            0 <= k < records.len() && (#[trigger] records[k]).node_id == node_id
                && records[k].sequence == sequence {
            let k = choose|k: int|
                0 <= k < records.len() && (#[trigger] records[k]).node_id == node_id
                    && records[k].sequence == sequence;
            assert(records[k].key() == (node_id, sequence));
        }
    }
    if records.len() > 0 {
        let n = records.len() - 1;
        let fewer = records.drop_last();
        lemma_records_in_fields(fewer);
        assert forall|k: int| 0 <= k < records.len() implies min_measured(records) <= (
        #[trigger] records[k]).measured_ns <= max_measured(records) by {
            if k < n {
                assert(fewer[k] == records[k]);
            }
        }
        if fewer.len() > 0 {
            let a = choose|k: int|
                0 <= k < fewer.len() && (#[trigger] fewer[k]).measured_ns == min_measured(fewer);
            let b = choose|k: int|
                0 <= k < fewer.len() && (#[trigger] fewer[k]).measured_ns == max_measured(fewer);
            assert(records[a] == fewer[a] && records[b] == fewer[b]);
        }
        assert(records[n] == records.last());
        assert(exists|k: int|
            0 <= k < records.len() && (#[trigger] records[k]).measured_ns == min_measured(records))
            by {
            if records[n].measured_ns != min_measured(records) {
                let a = choose|k: int|
                    0 <= k < fewer.len() && (#[trigger] fewer[k]).measured_ns == min_measured(
                        fewer,
                    );
                assert(records[a].measured_ns == min_measured(records));
            }
        }
        assert(exists|k: int|
            0 <= k < records.len() && (#[trigger] records[k]).measured_ns == max_measured(records))
            by {
            if records[n].measured_ns != max_measured(records) {
                let b = choose|k: int|
                    0 <= k < fewer.len() && (#[trigger] fewer[k]).measured_ns == max_measured(
                        fewer,
                    );
                assert(records[b].measured_ns == max_measured(records));
            }
        }
    }
}

/// The metadata says of the records what they hold: how many they are, from
/// when to when they were measured, and of which nodes under which numbers.
pub open spec fn tells_of(segment: SegmentView, records: Seq<EnvSample>) -> bool {
    &&& segment.records == records.len()
    &&& forall|node_id: u64, sequence: u32| #[trigger]
        segment.keys.contains((node_id, sequence)) <==> exists|k: int|
            0 <= k < records.len() && (#[trigger] records[k]).node_id == node_id
                && records[k].sequence == sequence
    &&& forall|k: int|
        0 <= k < records.len() ==> segment.min_measured_ns <= (#[trigger] records[k]).measured_ns
            <= segment.max_measured_ns
    &&& records.len() > 0 ==> {
        &&& exists|k: int|
            0 <= k < records.len() && (#[trigger] records[k]).measured_ns
                == segment.min_measured_ns
        &&& exists|k: int|
            0 <= k < records.len() && (#[trigger] records[k]).measured_ns
                == segment.max_measured_ns
    }
    &&& records.len() == 0 ==> segment.min_measured_ns == u64::MAX && segment.max_measured_ns == 0
}

/// **The metadata of a segment is that of its file**: its count, its keys, its
/// earliest and latest measurement and its size.
pub proof fn law_metadata_is_that_of_the_file(
    store: ObservationView,
    disk: Disk,
    p: spec_fn(Seq<char>) -> Result<EnvSample, String>,
    i: int,
)
    requires
        on_disk(store, disk, p),
        0 <= i < store.segments.len(),
    ensures
        tells_of(store.segments[i], records_in(disk[store.segments[i].name], p)),
        store.segments[i].bytes == disk[store.segments[i].name].len(),
{
    assert(describes(store.segments[i], disk, p));
    lemma_records_in_fields(records_in(disk[store.segments[i].name], p));
}

/// **What a directory opens as**: one segment for each listed file, under its
/// name, with the metadata of the records that were read and the size; a dedup
/// index of the records and of the keys that were kept, and of no others; the
/// number after that of the last file to go on with; counters at zero; room
/// for at least one record in each segment.
pub proof fn law_opened_store_on_fields(
    listing: Seq<Listed>,
    batches: Seq<Batch<EnvSample>>,
    segment_max_records: usize,
    kept: Set<(u64, u32)>,
    store: ObservationView,
    i: int,
    node_id: u64,
    sequence: u32,
)
    requires
        store == store_of(listing, batches, segment_max_records, kept),
        batches.len() == listing.len(),
    ensures
        store.segments.len() == listing.len(),
        0 <= i < listing.len() ==> {
            &&& store.segments[i].name == listing[i].0
            &&& tells_of(store.segments[i], batches[i].records@)
            &&& store.segments[i].bytes == batches[i].size
        },
        store.seen.contains((node_id, sequence)) <==> kept.contains((node_id, sequence)) || exists|
            b: int,
            k: int,
        |
            0 <= b < batches.len() && 0 <= k < batches[b].records@.len()
                && #[trigger] batches[b].records@[k].node_id == node_id
                && batches[b].records@[k].sequence == sequence,
        listing.len() == 0 ==> store.next_segment_index == 0,
        listing.len() > 0 && listing.last().1 < u64::MAX ==> store.next_segment_index
            == listing.last().1 + 1,
        store.unterminated <==> batches.len() > 0 && batches.last().unterminated,
        segment_max_records > 0 ==> store.segment_max_records == segment_max_records,
        segment_max_records == 0 ==> store.segment_max_records == 1,
        store.appended_total == 0,
        store.duplicates_total == 0,
        store.retention_deleted_total == 0,
{
    if 0 <= i < listing.len() {
        lemma_records_in_fields(batches[i].records@);
        assert(batches[i].records@.len() == batches[i].records.len());
    }
    lemma_records_in_fields(chain(batches));
    lemma_chained(batches);
    if exists|b: int, k: int|
        0 <= b < batches.len() && 0 <= k < batches[b].records@.len()
            && #[trigger] batches[b].records@[k].node_id == node_id
            && batches[b].records@[k].sequence == sequence {
        let (b, k) = choose|b: int, k: int|
            0 <= b < batches.len() && 0 <= k < batches[b].records@.len()
                && #[trigger] batches[b].records@[k].node_id == node_id
                && batches[b].records@[k].sequence == sequence;
        assert(chain(batches).contains(batches[b].records@[k]));
    }
    if keys_of(chain(batches)).contains((node_id, sequence)) {
        let m = choose|m: int|
            0 <= m < chain(batches).len() && (#[trigger] chain(batches)[m]).node_id == node_id
                && chain(batches)[m].sequence == sequence;
        assert(chain(batches).contains(chain(batches)[m]));
        let (b, k) = choose|b: int, k: int|
            0 <= b < batches.len() && 0 <= k < batches[b].records@.len()
                && #[trigger] batches[b].records@[k] == chain(batches)[m];
        assert(batches[b].records@[k].node_id == node_id);
    }
}

/// **What opening gives**: a store over the segment files among the names, in
/// the order of their names, each with the metadata of what was read from it;
/// that knows the samples that were read and the keys that were kept, and no
/// others; and that has counted nothing yet.
pub proof fn law_open_gives_what_was_read<
    R: Fn(&String) -> Result<Vec<u8>, StoreError>,
    F: Fn(&str) -> Result<EnvSample, String>,
>(
    names: Seq<String>,
    segment_max_records: usize,
    kept: Set<(u64, u32)>,
    read: R,
    parse: F,
    store: ObservationView,
    repair: Option<Repair>,
)
    requires
        open_yields(names, segment_max_records, kept, read, parse, Ok((store, repair))),
    ensures
        ({
            let listing = listing_of(names, "obs"@);
            &&& store.segments.len() == listing.len()
            &&& forall|i: int|
                0 <= i < listing.len() ==> (#[trigger] store.segments[i]).name == listing[i].0
            &&& listing.len() == 0 ==> store.next_segment_index == 0
            &&& listing.len() > 0 && listing.last().1 < u64::MAX ==> store.next_segment_index
                == listing.last().1 + 1
            &&& exists|batches: Seq<Batch<EnvSample>>|
                {
                    &&& #[trigger] opened_prefix(listing, read, parse, batches)
                    &&& batches.len() == listing.len()
                    &&& repair_needed(listing, batches, repair)
                    &&& forall|i: int|
                        0 <= i < batches.len() ==> tells_of(
                            store.segments[i],
                            (#[trigger] batches[i]).records@,
                        ) && store.segments[i].bytes == batches[i].size
                    &&& forall|node_id: u64, sequence: u32| #[trigger]
                        store.seen.contains((node_id, sequence)) <==> kept.contains(
                            (node_id, sequence),
                        ) || exists|b: int, k: int|
                            0 <= b < batches.len() && 0 <= k < batches[b].records@.len()
                                && #[trigger] batches[b].records@[k].node_id == node_id
                                && batches[b].records@[k].sequence == sequence
                    &&& store.unterminated <==> batches.len() > 0 && batches.last().unterminated
                }
        }),
        segment_max_records > 0 ==> store.segment_max_records == segment_max_records,
        segment_max_records == 0 ==> store.segment_max_records == 1,
        store.appended_total == 0,
        store.duplicates_total == 0,
        store.retention_deleted_total == 0,
{
    let listing = listing_of(names, "obs"@);
    let batches = choose|batches: Seq<Batch<EnvSample>>| #[trigger]
        opened_prefix(listing, read, parse, batches) && batches.len() == listing.len() && store
            == store_of(listing, batches, segment_max_records, kept) && repair_needed(
            listing,
            batches,
            repair,
        );
    law_opened_store_on_fields(listing, batches, segment_max_records, kept, store, 0, 0, 0);
    assert forall|i: int| 0 <= i < batches.len() implies tells_of(
        store.segments[i],
        (#[trigger] batches[i]).records@,
    ) && store.segments[i].bytes == batches[i].size by {
        law_opened_store_on_fields(listing, batches, segment_max_records, kept, store, i, 0, 0);
    }
    assert forall|node_id: u64, sequence: u32| #[trigger]
        store.seen.contains((node_id, sequence)) <==> kept.contains((node_id, sequence)) || exists|
            b: int,
            k: int,
        |
            0 <= b < batches.len() && 0 <= k < batches[b].records@.len()
                && #[trigger] batches[b].records@[k].node_id == node_id
                && batches[b].records@[k].sequence == sequence by {
        law_opened_store_on_fields(
            listing,
            batches,
            segment_max_records,
            kept,
            store,
            0,
            node_id,
            sequence,
        );
    }
}

/// What is in the batches is in their chain, and nothing else.
pub proof fn lemma_chained<T>(batches: Seq<Batch<T>>)
    ensures
        forall|b: int, k: int|
            0 <= b < batches.len() && 0 <= k < batches[b].records@.len() ==> chain(
                batches,
            ).contains(#[trigger] batches[b].records@[k]),
        forall|x: T| #[trigger]
            chain(batches).contains(x) ==> exists|b: int, k: int|
                0 <= b < batches.len() && 0 <= k < batches[b].records@.len()
                    && #[trigger] batches[b].records@[k] == x,
    decreases batches.len(),
{
    if batches.len() > 0 {
        let n = batches.len() - 1;
        let fewer = batches.drop_last();
        let head = chain(fewer);
        let tail = batches.last().records@;
        lemma_chained(fewer);
        assert forall|b: int, k: int|
            0 <= b < batches.len() && 0 <= k < batches[b].records@.len() implies chain(
            batches,
        ).contains(#[trigger] batches[b].records@[k]) by {
            let x = batches[b].records@[k];
            if b < n {
                assert(fewer[b] == batches[b]);
                assert(head.contains(fewer[b].records@[k]));
                let m = choose|m: int| 0 <= m < head.len() && head[m] == x;
                assert((head + tail)[m] == x);
            } else {
                assert((head + tail)[head.len() + k] == x);
            }
        }
        assert forall|x: T| #[trigger] chain(batches).contains(x) implies exists|b: int, k: int|
            0 <= b < batches.len() && 0 <= k < batches[b].records@.len()
                && #[trigger] batches[b].records@[k] == x by {
            let m = choose|m: int| 0 <= m < (head + tail).len() && (head + tail)[m] == x;
            if m < head.len() {
                assert(head.contains(head[m]));
                let (b, k) = choose|b: int, k: int|
                    0 <= b < fewer.len() && 0 <= k < fewer[b].records@.len()
                        && #[trigger] fewer[b].records@[k] == x;
                assert(batches[b] == fewer[b]);
                assert(batches[b].records@[k] == x);
            } else {
                assert(batches[n].records@[m - head.len()] == x);
            }
        }
    }
}

// ---------------------------------------------------------------------------
// Appending
// ---------------------------------------------------------------------------

/// **What decides on an append**: the verdict first, then whether node and
/// sequence number are known, then whether there is an encoding. A duplicate
/// is counted and changes nothing else; a failed append counts nothing and
/// makes nothing known.
pub proof fn law_append_is_decided_by<W: FnOnce(&String, &Vec<u8>) -> Result<(), StoreError>>(
    before: ObservationView,
    sample: EnvSample,
    check: Result<(), EnvError>,
    line: Result<Vec<u8>, String>,
    write: W,
    result: Result<AppendOutcome, StoreError>,
    after: ObservationView,
)
    requires
        append_yields(before, sample, check, line, write, result, after),
        before.duplicates_total < u64::MAX,
    ensures
        check is Err ==> result == Err::<AppendOutcome, StoreError>(
            StoreError::Core(check->Err_0),
        ) && after == before,
        result == Ok::<AppendOutcome, StoreError>(AppendOutcome::Duplicate) <==> check is Ok
            && before.seen.contains((sample.node_id, sample.sequence)),
        result == Ok::<AppendOutcome, StoreError>(AppendOutcome::Duplicate) ==> {
            &&& after.duplicates_total == before.duplicates_total + 1
            &&& after.segments == before.segments
            &&& after.seen == before.seen
            &&& after.appended_total == before.appended_total
            &&& after.next_segment_index == before.next_segment_index
            &&& after.unterminated == before.unterminated
        },
        check is Ok && !before.seen.contains((sample.node_id, sample.sequence)) && line is Err
            ==> result == Err::<AppendOutcome, StoreError>(
            StoreError::Core(EnvError::Invalid(line->Err_0)),
        ),
        check is Ok && !before.seen.contains((sample.node_id, sample.sequence)) && line is Ok
            && result is Err ==> exists|n: String, v: Vec<u8>| #[trigger]
            call_ensures(write, (&n, &v), Err(result->Err_0)),
        result is Err ==> {
            &&& after.seen == before.seen
            &&& after.appended_total == before.appended_total
            &&& after.duplicates_total == before.duplicates_total
            &&& total_records(after.segments) == total_records(before.segments)
            &&& total_bytes(after.segments) == total_bytes(before.segments)
        },
        after.segment_max_records == before.segment_max_records,
        after.retention_deleted_total == before.retention_deleted_total,
{
    if before.must_roll() {
        assert(before.rolled().segments.drop_last() =~= before.segments);
    }
}

/// **What an append adds.** The sample goes to the last segment, or, where
/// there is none or it holds `segment_max_records`, to a new one with the next
/// number in its name; that segment alone changes: by one record, by the node
/// and sequence number, by the time and by the bytes of the line, its newline
/// and the newline that was lacking; and those bytes were written to its file.
/// The store knows the sample from then on and has counted it.
pub proof fn law_append_adds_one_sample<W: FnOnce(&String, &Vec<u8>) -> Result<(), StoreError>>(
    before: ObservationView,
    sample: EnvSample,
    check: Result<(), EnvError>,
    line: Vec<u8>,
    write: W,
    after: ObservationView,
    node_id: u64,
    sequence: u32,
)
    requires
        before.has_room(line@.len() as int),
        append_yields(
            before,
            sample,
            check,
            Ok(line),
            write,
            Ok(AppendOutcome::Appended),
            after,
        ),
    ensures
        after.seen.contains((node_id, sequence)) <==> before.seen.contains((node_id, sequence)) || (
        node_id == sample.node_id && sequence == sample.sequence),
        after.appended_total == before.appended_total + 1,
        after.duplicates_total == before.duplicates_total,
        !after.unterminated,
        ({
            let n = before.segments.len();
            let last = after.segments.last();
            let full = n == 0 || before.segments[n - 1].records >= before.segment_max_records;
            &&& full ==> {
                &&& after.segments.len() == n + 1
                &&& after.segments.drop_last() == before.segments
                &&& last.name == file_name("obs"@, before.next_segment_index)
                &&& after.next_segment_index == before.next_segment_index + 1
                &&& last.records == 1
                &&& last.min_measured_ns == sample.measured_ns
                &&& last.max_measured_ns == sample.measured_ns
                &&& last.bytes == line@.len() + 1
                &&& last.keys.contains((node_id, sequence)) <==> node_id == sample.node_id
                    && sequence == sample.sequence
            }
            &&& !full ==> {
                let held = before.segments.last();
                &&& after.segments.len() == n
                &&& after.segments.drop_last() == before.segments.drop_last()
                &&& last.name == held.name
                &&& after.next_segment_index == before.next_segment_index
                &&& last.records == held.records + 1
                &&& last.min_measured_ns <= sample.measured_ns <= last.max_measured_ns
                &&& last.min_measured_ns <= held.min_measured_ns
                &&& last.max_measured_ns >= held.max_measured_ns
                &&& last.min_measured_ns == held.min_measured_ns || last.min_measured_ns
                    == sample.measured_ns
                &&& last.max_measured_ns == held.max_measured_ns || last.max_measured_ns
                    == sample.measured_ns
                &&& last.bytes == held.bytes + line@.len() + 1 + if before.unterminated {
                    1int
                } else {
                    0
                }
                &&& last.keys.contains((node_id, sequence)) <==> held.keys.contains(
                    (node_id, sequence),
                ) || (node_id == sample.node_id && sequence == sample.sequence)
            }
        }),
        ({
            let n = before.segments.len();
            let full = n == 0 || before.segments[n - 1].records >= before.segment_max_records;
            exists|name: String, bytes: Vec<u8>|
                {
                    &&& name@ == after.segments.last().name
                    &&& bytes@ == if !full && before.unterminated {
                        seq![10u8] + line@.push(10u8)
                    } else {
                        line@.push(10u8)
                    }
                    &&& #[trigger] call_ensures(write, (&name, &bytes), Ok(()))
                }
        }),
{
    let n = before.segments.len();
    let rolled = before.rolled();
    if before.must_roll() {
        assert(rolled.segments.drop_last() =~= before.segments);
        assert(after.segments.drop_last() =~= before.segments);
    } else {
        crate::store::observations::lemma_part_of_totals(before.segments, n - 1);
        assert(after.segments.drop_last() =~= before.segments.drop_last());
    }
    let whole = line@.push(10u8);
    assert(Seq::<u8>::empty() + whole =~= whole);
    assert(written(write, rolled.segments.last().name, rolled.handed_out(line@), Ok(())));
}

/// **What is written for an append**: to the file of the last segment, or of
/// the new one, the line and a newline, with a newline in front where the
/// file lacks one; and for a sample that is turned away, nothing.
pub proof fn law_append_writes_one_line(
    before: ObservationView,
    sample: EnvSample,
    check: Result<(), EnvError>,
    line: Result<Vec<u8>, String>,
    name: Seq<char>,
    bytes: Seq<u8>,
)
    ensures
        ({
            let n = before.segments.len();
            let full = n == 0 || before.segments[n - 1].records >= before.segment_max_records;
            write_due(before, sample, check, line, name, bytes) <==> {
                &&& check is Ok
                &&& !before.seen.contains((sample.node_id, sample.sequence))
                &&& line is Ok
                &&& full ==> name == file_name("obs"@, before.next_segment_index) && bytes
                    == line->Ok_0@.push(10u8)
                &&& !full ==> name == before.segments[n - 1].name
                &&& !full && before.unterminated ==> bytes == seq![10u8] + line->Ok_0@.push(10u8)
                &&& !full && !before.unterminated ==> bytes == line->Ok_0@.push(10u8)
            }
        }),
{
    if line is Ok {
        let whole = line->Ok_0@.push(10u8);
        assert(Seq::<u8>::empty() + whole =~= whole);
    }
}

/// **When there is room**: as long as no total and no counter is at the limit
/// of its machine type.
pub proof fn law_room_ends_at_machine_limits(store: ObservationView, line_len: int)
    requires
        line_len >= 0,
    ensures
        store.in_bounds() <==> total_records(store.segments) <= usize::MAX && total_bytes(
            store.segments,
        ) <= u64::MAX,
        ({
            let n = store.segments.len();
            let full = n == 0 || store.segments[n - 1].records >= store.segment_max_records;
            let newlines = if !full && store.unterminated {
                2int
            } else {
                1
            };
            store.has_room(line_len) <==> {
                &&& total_records(store.segments) < usize::MAX
                &&& total_bytes(store.segments) + line_len + newlines <= u64::MAX
                &&& store.next_segment_index < u64::MAX
                &&& store.appended_total < u64::MAX
                &&& store.duplicates_total < u64::MAX
            }
        }),
{
}

// ---------------------------------------------------------------------------
// Retention
// ---------------------------------------------------------------------------

/// **What a retention pass keeps**: of the segments but the last, in their
/// order, those whose latest measurement plus the retention time is after
/// now; and the last one. What is known and what was counted before stays.
pub proof fn law_retention_keeps_by_latest_measurement<D: Fn(&String) -> Result<(), StoreError>>(
    before: ObservationView,
    now_ns: u64,
    retention_ns: u64,
    remove: D,
    deleted: u64,
    after: ObservationView,
)
    requires
        retention_yields(before, now_ns, retention_ns, remove, Ok(deleted), after),
    ensures
        before.segments.len() > 0 ==> after.segments == before.segments.drop_last().filter(
            |s: SegmentView| s.max_measured_ns + retention_ns > now_ns,
        ).push(before.segments.last()),
        before.segments.len() == 0 ==> after.segments.len() == 0,
        forall|i: int|
            0 <= i < after.segments.len() - 1 ==> (#[trigger] after.segments[i]).max_measured_ns
                + retention_ns > now_ns,
        deleted <= u64::MAX - before.retention_deleted_total ==> after.retention_deleted_total
            == before.retention_deleted_total + deleted,
        total_records(after.segments) + deleted == total_records(before.segments),
        after.seen == before.seen,
        after.appended_total == before.appended_total,
        after.duplicates_total == before.duplicates_total,
        after.next_segment_index == before.next_segment_index,
        after.segment_max_records == before.segment_max_records,
        after.unterminated == before.unterminated,
{
    let closed = closed_segments(before.segments);
    let rest = before.segments.skip(closed.len() as int);
    let mine = |s: SegmentView| s.max_measured_ns + retention_ns > now_ns;
    let theirs = |s: SegmentView| !s.expired(now_ns, retention_ns);
    assert(mine =~= theirs);
    let kept = closed.filter(mine);
    assert(kept == unexpired(closed, now_ns, retention_ns));
    if before.segments.len() > 0 {
        assert(rest =~= seq![before.segments.last()]);
        assert(after.segments =~= kept.push(before.segments.last()));
    } else {
        assert(closed =~= Seq::empty());
        reveal(Seq::filter);
        assert(rest =~= Seq::empty());
        assert(after.segments =~= Seq::empty());
    }
    assert forall|i: int| 0 <= i < after.segments.len() - 1 implies (
    #[trigger] after.segments[i]).max_measured_ns + retention_ns > now_ns by {
        assert(after.segments[i] == kept[i]);
        closed.lemma_filter_pred(mine, i);
    }
    crate::store::observations::lemma_retention_totals(closed, now_ns, retention_ns);
    crate::store::observations::lemma_totals_add(closed, rest);
    crate::store::observations::lemma_totals_add(unexpired(closed, now_ns, retention_ns), rest);
    assert(closed + rest =~= before.segments);
}

/// **Retention is complete.** After a pass that went through, the file of every
/// segment that is left, but for the last one, holds a sample whose time of
/// measurement plus the retention time is after now (or holds none at all, and
/// the retention time itself is).
pub proof fn law_retention_is_complete<D: Fn(&String) -> Result<(), StoreError>>(
    before: ObservationView,
    disk: Disk,
    p: spec_fn(Seq<char>) -> Result<EnvSample, String>,
    now_ns: u64,
    retention_ns: u64,
    remove: D,
    deleted: u64,
    after: ObservationView,
    i: int,
)
    requires
        on_disk(before, disk, p),
        retention_yields(before, now_ns, retention_ns, remove, Ok(deleted), after),
        0 <= i < after.segments.len() - 1,
    ensures
        ({
            let records = records_in(disk[after.segments[i].name], p);
            &&& records.len() > 0 ==> exists|k: int|
                0 <= k < records.len() && (#[trigger] records[k]).measured_ns + retention_ns
                    > now_ns
            &&& records.len() == 0 ==> retention_ns > now_ns
        }),
{
    law_retention_keeps_by_latest_measurement(
        before,
        now_ns,
        retention_ns,
        remove,
        deleted,
        after,
    );
    let closed = before.segments.drop_last();
    let mine = |s: SegmentView| s.max_measured_ns + retention_ns > now_ns;
    let kept = closed.filter(mine);
    assert(after.segments[i] == kept[i]);
    assert(kept.contains(kept[i]));
    closed.lemma_filter_contains_rev(mine, kept[i]);
    let j = choose|j: int| 0 <= j < closed.len() && closed[j] == kept[i];
    assert(before.segments[j] == after.segments[i]);
    law_metadata_is_that_of_the_file(before, disk, p, j);
    let records = records_in(disk[after.segments[i].name], p);
    if records.len() > 0 {
        let k = choose|k: int|
            0 <= k < records.len() && (#[trigger] records[k]).measured_ns
                == before.segments[j].max_measured_ns;
        assert(records[k].measured_ns + retention_ns > now_ns);
    }
}

/// **An expired segment goes, whatever its size.** A segment other than the
/// last, each of whose samples was measured at least the retention time ago, is
/// removed and left out by a pass that goes through.
pub proof fn law_expired_segment_goes<D: Fn(&String) -> Result<(), StoreError>>(
    before: ObservationView,
    disk: Disk,
    p: spec_fn(Seq<char>) -> Result<EnvSample, String>,
    now_ns: u64,
    retention_ns: u64,
    remove: D,
    deleted: u64,
    after: ObservationView,
    i: int,
)
    requires
        on_disk(before, disk, p),
        retention_yields(before, now_ns, retention_ns, remove, Ok(deleted), after),
        0 <= i < before.segments.len() - 1,
        retention_ns <= now_ns,
        forall|k: int|
            0 <= k < records_in(disk[before.segments[i].name], p).len() ==> (#[trigger] records_in(
                disk[before.segments[i].name],
                p,
            )[k]).measured_ns + retention_ns <= now_ns,
    ensures
        forall|j: int|
            0 <= j < after.segments.len() ==> (#[trigger] after.segments[j]).name
                != before.segments[i].name,
        exists|n: String|
            n@ == before.segments[i].name && #[trigger] call_ensures(remove, (&n,), Ok(())),
{
    law_retention_keeps_by_latest_measurement(
        before,
        now_ns,
        retention_ns,
        remove,
        deleted,
        after,
    );
    law_metadata_is_that_of_the_file(before, disk, p, i);
    let gone = before.segments[i];
    let records = records_in(disk[gone.name], p);
    if records.len() > 0 {
        let k = choose|k: int|
            0 <= k < records.len() && (#[trigger] records[k]).measured_ns == gone.max_measured_ns;
        assert(records[k].measured_ns + retention_ns <= now_ns);
    }
    assert(gone.max_measured_ns + retention_ns <= now_ns);
    let closed = before.segments.drop_last();
    assert(closed[i] == gone);
    assert(closed_segments(before.segments)[i].expired(now_ns, retention_ns));
    let names = names_of(before.segments);
    lemma_names_distinct(names, "obs"@);
    let mine = |s: SegmentView| s.max_measured_ns + retention_ns > now_ns;
    let kept = closed.filter(mine);
    assert forall|j: int| 0 <= j < after.segments.len() implies (#[trigger] after.segments[j]).name
        != gone.name by {
        assert(names[i] == gone.name);
        if j < kept.len() {
            assert(after.segments[j] == kept[j]);
            assert(kept.contains(kept[j]));
            closed.lemma_filter_contains_rev(mine, kept[j]);
            closed.lemma_filter_pred(mine, j);
            let m = choose|m: int| 0 <= m < closed.len() && closed[m] == kept[j];
            assert(before.segments[m] == kept[j]);
            assert(m != i);
            assert(names[m] == kept[j].name);
        } else {
            assert(after.segments[j] == before.segments.last());
            assert(names[names.len() - 1] == before.segments.last().name);
        }
    }
}

/// **Only expired segments go**, whether or not the pass went through: a
/// segment that is left out is not the last one, and each of its samples was
/// measured at least the retention time ago.
pub proof fn law_only_expired_segments_go<D: Fn(&String) -> Result<(), StoreError>>(
    before: ObservationView,
    disk: Disk,
    p: spec_fn(Seq<char>) -> Result<EnvSample, String>,
    now_ns: u64,
    retention_ns: u64,
    remove: D,
    result: Result<u64, StoreError>,
    after: ObservationView,
    i: int,
)
    requires
        on_disk(before, disk, p),
        retention_yields(before, now_ns, retention_ns, remove, result, after),
        0 <= i < before.segments.len(),
        !after.segments.contains(before.segments[i]),
    ensures
        i < before.segments.len() - 1,
        before.segments[i].max_measured_ns + retention_ns <= now_ns,
        forall|k: int|
            0 <= k < records_in(disk[before.segments[i].name], p).len() ==> (#[trigger] records_in(
                disk[before.segments[i].name],
                p,
            )[k]).measured_ns + retention_ns <= now_ns,
        exists|n: String|
            n@ == before.segments[i].name && #[trigger] call_ensures(remove, (&n,), Ok(())),
{
    let closed = closed_segments(before.segments);
    let k = match result {
        Ok(_) => closed.len() as int,
        Err(error) => choose|k: int|
            {
                &&& 0 <= k < closed.len()
                &&& (#[trigger] closed[k]).expired(now_ns, retention_ns)
                &&& crate::store::observations::removal(remove, closed[k].name, Err(error))
                &&& crate::store::observations::all_removed(
                    closed.take(k),
                    now_ns,
                    retention_ns,
                    remove,
                )
                &&& after.segments == unexpired(closed.take(k), now_ns, retention_ns)
                    + before.segments.skip(k)
            },
    };
    if result is Ok {
        assert(closed.take(k) =~= closed);
    }
    let kept = unexpired(closed.take(k), now_ns, retention_ns);
    let rest = before.segments.skip(k);
    assert(after.segments == kept + rest);
    let gone = before.segments[i];
    if i >= k {
        assert(rest[i - k] == gone);
        assert(after.segments[kept.len() + i - k] == gone);
    }
    assert(i < k);
    assert(closed.take(k)[i] == gone);
    if gone.max_measured_ns + retention_ns > now_ns {
        let theirs = |s: SegmentView| !s.expired(now_ns, retention_ns);
        assert(theirs(gone));
        assert(closed.take(k).contains(gone));
        closed.take(k).lemma_filter_contains(theirs, i);
        let m = choose|m: int| 0 <= m < kept.len() && kept[m] == gone;
        assert(after.segments[m] == gone);
    }
    assert(closed.take(k)[i].expired(now_ns, retention_ns));
    law_metadata_is_that_of_the_file(before, disk, p, i);
}

/// **Which files a pass asks to remove**: only those of segments before the
/// last one whose latest measurement plus the retention time is not after now.
pub proof fn law_only_expired_files_are_asked_for<D: Fn(&String) -> Result<(), StoreError>>(
    segments: Seq<SegmentView>,
    now_ns: u64,
    retention_ns: u64,
    remove: D,
    name: Seq<char>,
)
    requires
        removal_due(closed_segments(segments), now_ns, retention_ns, remove, name),
    ensures
        exists|i: int|
            {
                &&& 0 <= i < segments.len() - 1
                &&& (#[trigger] segments[i]).name == name
                &&& segments[i].max_measured_ns + retention_ns <= now_ns
            },
{
    let closed = closed_segments(segments);
    let i = choose|i: int|
        0 <= i < closed.len() && (#[trigger] closed[i]).expired(now_ns, retention_ns)
            && closed[i].name == name;
    assert(segments[i] == closed[i]);
}

/// **A pass that stops says why**: the remover could not remove the file of an
/// expired segment, and that segment is still there; those in front of it that
/// are left have not expired, and the records of those that went are counted.
pub proof fn law_stopped_pass_keeps_its_segment<D: Fn(&String) -> Result<(), StoreError>>(
    before: ObservationView,
    now_ns: u64,
    retention_ns: u64,
    remove: D,
    error: StoreError,
    after: ObservationView,
)
    requires
        retention_yields(before, now_ns, retention_ns, remove, Err(error), after),
    ensures
        exists|j: int|
            {
                &&& 0 <= j < after.segments.len() - 1
                &&& (#[trigger] after.segments[j]).max_measured_ns + retention_ns <= now_ns
                &&& forall|m: int|
                    0 <= m < j ==> (#[trigger] after.segments[m]).max_measured_ns + retention_ns
                        > now_ns
                &&& exists|n: String|
                    n@ == after.segments[j].name && #[trigger] call_ensures(
                        remove,
                        (&n,),
                        Err(error),
                    )
            },
        after.segments.len() <= before.segments.len(),
        after.segments.last() == before.segments.last(),
        before.retention_deleted_total + total_records(before.segments) <= u64::MAX
            ==> after.retention_deleted_total + total_records(after.segments)
            == before.retention_deleted_total + total_records(before.segments),
        after.seen == before.seen,
        after.appended_total == before.appended_total,
        after.duplicates_total == before.duplicates_total,
        after.next_segment_index == before.next_segment_index,
        after.unterminated == before.unterminated,
{
    let closed = closed_segments(before.segments);
    let k = choose|k: int|
        {
            &&& 0 <= k < closed.len()
            &&& (#[trigger] closed[k]).expired(now_ns, retention_ns)
            &&& crate::store::observations::removal(remove, closed[k].name, Err(error))
            &&& after.segments == unexpired(closed.take(k), now_ns, retention_ns)
                + before.segments.skip(k)
            &&& after == (ObservationView {
                segments: after.segments,
                retention_deleted_total: (before.retention_deleted_total + total_records(
                    expired(closed.take(k), now_ns, retention_ns),
                )) as u64,
                ..before
            })
        };
    let kept = unexpired(closed.take(k), now_ns, retention_ns);
    let theirs = |s: SegmentView| !s.expired(now_ns, retention_ns);
    let rest = before.segments.skip(k);
    lemma_filter_len(closed.take(k), theirs);
    crate::store::observations::lemma_retention_totals(closed.take(k), now_ns, retention_ns);
    crate::store::observations::lemma_totals_add(closed.take(k), rest);
    crate::store::observations::lemma_totals_add(kept, rest);
    assert(closed.take(k) + rest =~= before.segments);
    let j = kept.len() as int;
    assert(after.segments[j] == closed[k]);
    assert forall|m: int| 0 <= m < j implies (#[trigger] after.segments[m]).max_measured_ns
        + retention_ns > now_ns by {
        assert(after.segments[m] == kept[m]);
        closed.take(k).lemma_filter_pred(theirs, m);
    }
}

// ---------------------------------------------------------------------------
// Looking at the store
// ---------------------------------------------------------------------------

/// **What the counters and sizes tell.** Where no sample is there twice, the
/// records are the samples on the disk; the bytes are those of the segment
/// files; the counters are those that were kept.
pub proof fn law_stats_tell_of_the_disk(
    store: ObservationView,
    disk: Disk,
    p: spec_fn(Seq<char>) -> Result<EnvSample, String>,
)
    requires
        on_disk(store, disk, p),
        store.in_bounds(),
        store.segments.len() <= u64::MAX,
        distinct_keys(samples_on(store, disk, p)),
    ensures
        stats_of(store).records == samples_on(store, disk, p).len(),
        stats_of(store).bytes_on_disk == file_sizes(names_of(store.segments), disk),
        stats_of(store).segments == store.segments.len(),
        stats_of(store).appended_total == store.appended_total,
        stats_of(store).duplicates_total == store.duplicates_total,
        stats_of(store).retention_deleted_total == store.retention_deleted_total,
{
    law_len_counts_samples(store, disk, p);
    law_bytes_are_file_sizes(store, disk, p);
}

/// **The most recent samples are the last that were appended**: as many as were
/// asked for, or all there are, in the order in which they were appended.
pub proof fn law_recent_samples_are_the_last<
    R: Fn(&String) -> Result<Vec<u8>, StoreError>,
    F: Fn(&str) -> Result<EnvSample, String>,
>(
    store: ObservationView,
    disk: Disk,
    p: spec_fn(Seq<char>) -> Result<EnvSample, String>,
    limit: nat,
    read: R,
    parse: F,
    result: Result<Vec<EnvSample>, StoreError>,
)
    requires
        on_disk(store, disk, p),
        serves(read, disk),
        computes(parse, p),
        recent_of(names_of(store.segments), limit, read, parse, result),
    ensures
        result is Ok,
        ({
            let all = samples_on(store, disk, p);
            let recent = result->Ok_0@;
            &&& all.len() >= limit ==> recent.len() == limit
            &&& all.len() < limit ==> recent.len() == all.len()
            &&& forall|i: int|
                0 <= i < recent.len() ==> #[trigger] recent[i] == all[all.len() - recent.len() + i]
        }),
{
    let (strings, all) = choose|strings: Seq<String>, all: Result<Vec<EnvSample>, StoreError>|
        texts(strings) == names_of(store.segments) && #[trigger] replay_yields(
            strings,
            read,
            parse,
            all,
        ) && match (all, result) {
            (Ok(all), Ok(result)) => result@ == last_items(all@, limit),
            (Err(a), Err(b)) => a == b,
            _ => false,
        };
    law_replay_gives_back(store, disk, p, strings, read, parse, all);
}

/// What is left of a list is no longer than the list.
proof fn lemma_filter_len<A>(items: Seq<A>, pred: spec_fn(A) -> bool)
    ensures
        items.filter(pred).len() <= items.len(),
    decreases items.len(),
{
    reveal(Seq::filter);
    if items.len() > 0 {
        lemma_filter_len(items.drop_last(), pred);
    }
}

} // verus!

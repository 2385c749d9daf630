//! What the observation store promises over a disk: every sample that was
//! appended is replayed and survives a restart, also one after a crash, until
//! it expires.

use crate::error::{AppendOutcome, EnvError, StoreError};
use crate::model::sample::EnvSample;
use crate::store::layout::{
    content, corrupt_after, files_decode, index_in, indexed, laid_out, lemma_chain_is_stored,
    lemma_closing_keeps_layout, lemma_drop_keeps_layout, lemma_line_is_stored,
    lemma_listing_is_layout, lemma_names_distinct, lemma_next_is_fresh, lemma_open_finds_tear,
    lemma_open_gives_stored, lemma_open_names_corrupt_line, lemma_replay_gives_stored, lists_disk,
    stored, tail_clean, with_bytes, with_closed, with_torn_tail,
};
use crate::store::lines::{
    all_decode, computes, ends_clean, framed, gap, is_one_line, line_reads_as, records_in,
};
use crate::store::load::{
    open_fails, opened_prefix, repair_needed, replay_yields, serves, Batch, Disk, Repair,
};
use crate::store::observations::{
    all_removed, append_yields, closed_segments, expired, is_expired_name, keys_of,
    lemma_keys_of_add, lemma_part_of_totals, lemma_retention_step, max_measured, min_measured,
    names_of, open_yields, removal, retention_yields, segment_of, store_of, stored_keys,
    total_bytes, total_records, unexpired, write_due, ObservationView, SegmentView,
};
use crate::store::segment::{file_name, segment_index};
use crate::text::texts;
use vstd::prelude::*;

verus! {

/// No two samples share a key.
pub open spec fn distinct_keys(samples: Seq<EnvSample>) -> bool {
    forall|i: int, j: int|
        0 <= i < j < samples.len() ==> #[trigger] samples[i].key() != #[trigger] samples[j].key()
}

/// The samples that the segments of the store hold on the disk.
pub open spec fn samples_on(
    store: ObservationView,
    disk: Disk,
    p: spec_fn(Seq<char>) -> Result<EnvSample, String>,
) -> Seq<EnvSample> {
    stored(names_of(store.segments), disk, p)
}

/// The metadata of a segment is that of its file.
pub open spec fn describes(
    segment: SegmentView,
    disk: Disk,
    p: spec_fn(Seq<char>) -> Result<EnvSample, String>,
) -> bool {
    let records = records_in(disk[segment.name], p);
    &&& records.len() <= usize::MAX
    &&& disk[segment.name].len() <= u64::MAX
    &&& segment == segment_of(segment.name, records, disk[segment.name].len() as u64)
}

/// The store is what the disk holds: its segments are the segment files, in
/// order and readable, with the right metadata, it knows whether the last line
/// lacks its newline, and the dedup index knows every sample in them.
pub open spec fn on_disk(
    store: ObservationView,
    disk: Disk,
    p: spec_fn(Seq<char>) -> Result<EnvSample, String>,
) -> bool {
    &&& laid_out(names_of(store.segments), "obs"@, store.next_segment_index, disk)
    &&& files_decode(names_of(store.segments), disk, p)
    &&& forall|i: int| 0 <= i < store.segments.len() ==> describes(#[trigger] store.segments[i], disk, p)
    &&& store.unterminated == !tail_clean(names_of(store.segments), disk)
    &&& keys_of(samples_on(store, disk, p)).subset_of(store.seen)
}

/// The keys that were kept beside the disk are of the store, and with those of
/// the samples on the disk they are all of it.
pub open spec fn remembered(
    store: ObservationView,
    disk: Disk,
    p: spec_fn(Seq<char>) -> Result<EnvSample, String>,
    kept: Set<(u64, u32)>,
) -> bool {
    &&& kept.subset_of(store.seen)
    &&& store.seen.subset_of(keys_of(samples_on(store, disk, p)).union(kept))
}

/// A key is among the keys of the samples where some sample has it.
pub proof fn lemma_keys_contains(samples: Seq<EnvSample>, key: (u64, u32))
    ensures
        keys_of(samples).contains(key) <==> exists|i: int|
            0 <= i < samples.len() && #[trigger] samples[i].key() == key,
    decreases samples.len(),
{
    if samples.len() > 0 {
        let n = samples.len() - 1;
        lemma_keys_contains(samples.drop_last(), key);
        if keys_of(samples).contains(key) {
            if samples.last().key() == key {
                assert(samples[n].key() == key);
            } else {
                let i = choose|i: int|
                    0 <= i < samples.drop_last().len() && #[trigger] samples.drop_last()[i].key()
                        == key;
                assert(samples[i].key() == key);
            }
        }
        if exists|i: int| 0 <= i < samples.len() && #[trigger] samples[i].key() == key {
            let i = choose|i: int| 0 <= i < samples.len() && #[trigger] samples[i].key() == key;
            if i < n {
                assert(samples.drop_last()[i].key() == key);
            }
        }
    }
}

/// The store with one more sample, whose line went to the disk with its newline
/// or, where the write was cut short, without.
spec fn with_sample(
    before: ObservationView,
    sample: EnvSample,
    line: Seq<u8>,
    newline: bool,
) -> ObservationView {
    let rolled = before.rolled();
    ObservationView {
        unterminated: !newline,
        ..rolled.with_record(
            sample,
            (gap(rolled.unterminated) + framed(line, newline)).len() as int,
        )
    }
}

/// A line that is written where the store would write it is one more sample.
proof fn lemma_sample_is_stored(
    before: ObservationView,
    disk: Disk,
    p: spec_fn(Seq<char>) -> Result<EnvSample, String>,
    sample: EnvSample,
    line: Seq<u8>,
    newline: bool,
    after: ObservationView,
)
    requires
        on_disk(before, disk, p),
        before.has_room(line.len() as int),
        before.must_roll() ==> before.next_segment_index < 1_000_000,
        is_one_line(line),
        line.len() > 0 || newline,
        line_reads_as(line, p, sample),
        !before.seen.contains(sample.key()),
        after == with_sample(before, sample, line, newline),
    ensures
        ({
            let disk2 = with_bytes(
                disk,
                after.segments.last().name,
                gap(before.rolled().unterminated) + framed(line, newline),
            );
            let all = samples_on(before, disk, p);
            &&& on_disk(after, disk2, p)
            &&& samples_on(after, disk2, p) == all.push(sample)
            &&& distinct_keys(all) ==> distinct_keys(all.push(sample))
            &&& keys_of(all.push(sample)) == keys_of(all).insert(sample.key())
        }),
{
    let rolled = before.rolled();
    let roll = before.must_roll();
    let names = names_of(before.segments);
    let names2 = names_of(after.segments);
    let next = before.next_segment_index;
    let bytes = gap(rolled.unterminated) + framed(line, newline);
    if roll {
        assert(names2 =~= names.push(file_name("obs"@, next)));
    } else {
        assert(names2 =~= names);
    }
    assert(names2.last() == after.segments.last().name);
    assert(rolled.unterminated == (!roll && !tail_clean(names, disk)));
    lemma_line_is_stored(names, roll, "obs"@, next, disk, p, line, newline, sample);
    let disk2 = with_bytes(disk, names2.last(), bytes);
    let all = samples_on(before, disk, p);
    assert(all.push(sample).drop_last() =~= all);
    assert forall|i: int, j: int|
        distinct_keys(all) && 0 <= i < j < all.push(sample).len() implies #[trigger] all.push(
        sample,
    )[i].key() != #[trigger] all.push(sample)[j].key() by {
        if j == all.len() {
            assert(all.push(sample)[i] == all[i]);
            assert(keys_of(all).contains(all[i].key())) by {
                lemma_keys_contains(all, all[i].key());
            }
        } else {
            assert(all.push(sample)[i] == all[i] && all.push(sample)[j] == all[j]);
        }
    }
    let n = after.segments.len() - 1;
    let old_bytes = content(disk, names2.last());
    let old_records = if roll {
        Seq::empty()
    } else {
        records_in(disk[names.last()], p)
    };
    assert(old_records.push(sample).drop_last() =~= old_records);
    assert forall|i: int| 0 <= i < after.segments.len() implies describes(
        #[trigger] after.segments[i],
        disk2,
        p,
    ) by {
        if i < n {
            assert(after.segments[i] == before.segments[i]);
            assert(describes(before.segments[i], disk, p));
            assert(names2[i] == before.segments[i].name);
        } else {
            assert(disk2[names2.last()] == old_bytes + bytes);
            lemma_part_of_totals(rolled.segments, n);
            if roll {
                lemma_next_is_fresh(names, "obs"@, next, disk);
                assert(old_bytes =~= Seq::empty());
                assert(rolled.segments[n] == SegmentView::empty(file_name("obs"@, next)));
                assert(rolled.segments.drop_last() =~= before.segments);
            } else {
                assert(describes(before.segments[n], disk, p));
                assert(rolled.segments[n] == before.segments[n]);
            }
            let held = rolled.segments[n];
            assert(held == rolled.segments.last());
            assert(after.segments[n] == held.grown(sample, bytes.len() as int));
            assert(total_records(rolled.segments) == total_records(before.segments));
            assert(held.records < usize::MAX);
            assert(held.bytes + bytes.len() <= u64::MAX);
            assert(held.records == old_records.len());
            assert(held.bytes == old_bytes.len());
            assert(held.keys == keys_of(old_records));
            assert(held.min_measured_ns == min_measured(old_records));
            assert(held.max_measured_ns == max_measured(old_records));
            assert(after.segments[n] =~= segment_of(
                after.segments[n].name,
                records_in(disk2[after.segments[n].name], p),
                disk2[after.segments[n].name].len() as u64,
            ));
        }
    }
}

/// **An appended sample is stored.** After an append that says `Appended`,
/// with the bytes it handed out appended to the named file, the store is still
/// what the disk holds, and the disk holds one more sample after those it
/// held before. So it is also where a crash has left the file without its last
/// newline. Samples of distinct keys stay so, and what was remembered beside
/// the disk still is.
pub proof fn law_append_is_stored<W: FnOnce(&String, &Vec<u8>) -> Result<(), StoreError>>(
    before: ObservationView,
    disk: Disk,
    p: spec_fn(Seq<char>) -> Result<EnvSample, String>,
    sample: EnvSample,
    check: Result<(), EnvError>,
    line: Vec<u8>,
    write: W,
    after: ObservationView,
    kept: Set<(u64, u32)>,
)
    requires
        on_disk(before, disk, p),
        before.has_room(line@.len() as int),
        before.must_roll() ==> before.next_segment_index < 1_000_000,
        is_one_line(line@),
        line_reads_as(line@, p, sample),
        append_yields(
            before,
            sample,
            check,
            Ok(line),
            write,
            Ok(AppendOutcome::Appended),
            after,
        ),
    ensures
        ({
            let disk2 = with_bytes(
                disk,
                after.segments.last().name,
                before.rolled().handed_out(line@),
            );
            &&& on_disk(after, disk2, p)
            &&& samples_on(after, disk2, p) == samples_on(before, disk, p).push(sample)
            &&& distinct_keys(samples_on(before, disk, p)) ==> distinct_keys(
                samples_on(after, disk2, p),
            )
            &&& remembered(before, disk, p, kept) ==> remembered(after, disk2, p, kept)
        }),
{
    lemma_sample_is_stored(before, disk, p, sample, line@, true, after);
}

/// **A newline that was lost costs nothing.** Where a crash cut a write short
/// right before its newline, the sample is there after a restart, and the
/// store goes on from it.
pub proof fn law_lost_newline_keeps_sample<
    R: Fn(&String) -> Result<Vec<u8>, StoreError>,
    F: Fn(&str) -> Result<EnvSample, String>,
>(
    before: ObservationView,
    disk: Disk,
    p: spec_fn(Seq<char>) -> Result<EnvSample, String>,
    sample: EnvSample,
    line: Seq<u8>,
    disk2: Disk,
    files: Seq<String>,
    segment_max_records: usize,
    kept: Set<(u64, u32)>,
    read: R,
    parse: F,
    result: Result<(ObservationView, Option<Repair>), StoreError>,
)
    requires
        on_disk(before, disk, p),
        before.has_room(line.len() as int),
        before.must_roll() ==> before.next_segment_index < 1_000_000,
        is_one_line(line),
        line.len() > 0,
        line_reads_as(line, p, sample),
        !before.seen.contains(sample.key()),
        disk2 == with_bytes(
            disk,
            before.rolled().segments.last().name,
            before.rolled().handed_out(line).drop_last(),
        ),
        lists_disk(files, disk2),
        serves(read, disk2),
        computes(parse, p),
        open_yields(files, segment_max_records, kept, read, parse, result),
    ensures
        result is Ok,
        result->Ok_0.1 is None,
        on_disk(result->Ok_0.0, disk2, p),
        samples_on(result->Ok_0.0, disk2, p) == samples_on(before, disk, p).push(sample),
        result->Ok_0.0.seen.contains(sample.key()),
{
    let after = with_sample(before, sample, line, false);
    let rolled = before.rolled();
    assert(after.segments.last().name == rolled.segments.last().name);
    assert(rolled.handed_out(line).drop_last() =~= gap(rolled.unterminated) + framed(line, false));
    lemma_sample_is_stored(before, disk, p, sample, line, false, after);
    law_reopen_gives_back(
        after,
        disk2,
        p,
        files,
        segment_max_records,
        kept,
        read,
        parse,
        result,
    );
}

/// The store once the last line of its last segment is ended.
pub open spec fn closed_tail(store: ObservationView) -> ObservationView {
    let last = store.segments.last();
    ObservationView {
        segments: store.segments.update(
            store.segments.len() - 1,
            SegmentView { bytes: (last.bytes + gap(store.unterminated).len()) as u64, ..last },
        ),
        unterminated: false,
        ..store
    }
}

/// Where a crash cut a write short right after the newline that goes in front,
/// the disk holds the samples it held before.
pub proof fn law_newline_alone_adds_nothing(
    store: ObservationView,
    disk: Disk,
    p: spec_fn(Seq<char>) -> Result<EnvSample, String>,
)
    requires
        on_disk(store, disk, p),
        store.segments.len() > 0,
        disk[store.segments.last().name].len() < u64::MAX,
    ensures
        ({
            let disk2 = with_closed(disk, store.segments.last().name);
            &&& on_disk(closed_tail(store), disk2, p)
            &&& samples_on(closed_tail(store), disk2, p) == samples_on(store, disk, p)
        }),
{
    let names = names_of(store.segments);
    let after = closed_tail(store);
    let n = store.segments.len() - 1;
    let last = store.segments[n].name;
    let disk2 = with_closed(disk, last);
    assert(names[n] == last);
    assert(names_of(after.segments) =~= names);
    lemma_closing_keeps_layout(names, "obs"@, store.next_segment_index, disk, p);
    assert forall|i: int| 0 <= i < after.segments.len() implies describes(
        #[trigger] after.segments[i],
        disk2,
        p,
    ) by {
        assert(describes(store.segments[i], disk, p));
        assert(names[i] == store.segments[i].name);
        assert(records_in(disk2[names[i]], p) == records_in(disk[names[i]], p));
    }
}

/// **A sample is taken in at most once.** Once an append has said `Appended`,
/// every further append of a sample with the same key that passes its check
/// says `Duplicate`, has nothing to write and stores nothing.
pub proof fn law_second_append_is_duplicate<
    W: FnOnce(&String, &Vec<u8>) -> Result<(), StoreError>,
    W2: FnOnce(&String, &Vec<u8>) -> Result<(), StoreError>,
>(
    before: ObservationView,
    sample: EnvSample,
    check: Result<(), EnvError>,
    line: Result<Vec<u8>, String>,
    write: W,
    after: ObservationView,
    again: EnvSample,
    line2: Result<Vec<u8>, String>,
    write2: W2,
    result: Result<AppendOutcome, StoreError>,
    last: ObservationView,
)
    requires
        append_yields(before, sample, check, line, write, Ok(AppendOutcome::Appended), after),
        again.key() == sample.key(),
        append_yields(after, again, Ok(()), line2, write2, result, last),
    ensures
        result == Ok::<AppendOutcome, StoreError>(AppendOutcome::Duplicate),
        last == after.with_duplicate(),
        forall|name: Seq<char>, bytes: Seq<u8>|
            !#[trigger] write_due(after, again, Ok(()), line2, name, bytes),
{
}

/// **A sample that fails its check never reaches the disk**: it is refused with
/// its fault, nothing is to be written for it, and the store is as it was.
pub proof fn law_invalid_sample_is_refused<
    W: FnOnce(&String, &Vec<u8>) -> Result<(), StoreError>,
>(
    before: ObservationView,
    sample: EnvSample,
    fault: EnvError,
    line: Result<Vec<u8>, String>,
    write: W,
    result: Result<AppendOutcome, StoreError>,
    after: ObservationView,
)
    requires
        append_yields(before, sample, Err(fault), line, write, result, after),
    ensures
        result == Err::<AppendOutcome, StoreError>(StoreError::Core(fault)),
        after == before,
        forall|name: Seq<char>, bytes: Seq<u8>|
            !#[trigger] write_due(before, sample, Err(fault), line, name, bytes),
{
}

/// The number of records that the store reports is the number of keys among
/// the samples on the disk, and that of the samples themselves where no key is
/// there twice.
pub proof fn law_len_counts_samples(
    store: ObservationView,
    disk: Disk,
    p: spec_fn(Seq<char>) -> Result<EnvSample, String>,
)
    requires
        on_disk(store, disk, p),
    ensures
        stored_keys(store.segments) == keys_of(samples_on(store, disk, p)),
        distinct_keys(samples_on(store, disk, p)) ==> stored_keys(store.segments).len()
            == samples_on(store, disk, p).len(),
        total_records(store.segments) == samples_on(store, disk, p).len(),
{
    lemma_segments_count(store.segments, disk, p);
    lemma_distinct_keys_count(samples_on(store, disk, p));
}

/// Samples of distinct keys have as many keys as there are samples.
pub proof fn lemma_distinct_keys_count(samples: Seq<EnvSample>)
    ensures
        keys_of(samples).finite(),
        distinct_keys(samples) ==> keys_of(samples).len() == samples.len(),
    decreases samples.len(),
{
    if samples.len() > 0 {
        let n = samples.len() - 1;
        let fewer = samples.drop_last();
        lemma_distinct_keys_count(fewer);
        if distinct_keys(samples) {
            assert forall|i: int, j: int| 0 <= i < j < fewer.len() implies #[trigger]
                fewer[i].key() != #[trigger] fewer[j].key() by {
                assert(samples[i].key() != samples[j].key());
            }
            lemma_keys_contains(fewer, samples[n].key());
            assert forall|i: int| 0 <= i < fewer.len() implies #[trigger] fewer[i].key()
                != samples[n].key() by {
                assert(samples[i].key() != samples[n].key());
            }
        }
    }
}

/// Segments that describe their files count their records and know their keys.
proof fn lemma_segments_count(
    segments: Seq<SegmentView>,
    disk: Disk,
    p: spec_fn(Seq<char>) -> Result<EnvSample, String>,
)
    requires
        forall|i: int| 0 <= i < segments.len() ==> describes(#[trigger] segments[i], disk, p),
    ensures
        total_records(segments) == stored(names_of(segments), disk, p).len(),
        stored_keys(segments) == keys_of(stored(names_of(segments), disk, p)),
    decreases segments.len(),
{
    if segments.len() > 0 {
        assert(describes(segments[segments.len() - 1], disk, p));
        assert(names_of(segments).drop_last() =~= names_of(segments.drop_last()));
        assert forall|i: int| 0 <= i < segments.drop_last().len() implies describes(
            #[trigger] segments.drop_last()[i],
            disk,
            p,
        ) by {
            assert(segments.drop_last()[i] == segments[i]);
        }
        lemma_segments_count(segments.drop_last(), disk, p);
        lemma_keys_of_add(
            stored(names_of(segments).drop_last(), disk, p),
            records_in(disk[segments.last().name], p),
        );
    }
}

/// The sizes of the named files, summed.
pub open spec fn file_sizes(names: Seq<Seq<char>>, disk: Disk) -> nat
    decreases names.len(),
{
    if names.len() == 0 {
        0
    } else {
        file_sizes(names.drop_last(), disk) + disk[names.last()].len()
    }
}

/// The bytes that the store reports are the sizes of its files.
pub proof fn law_bytes_are_file_sizes(
    store: ObservationView,
    disk: Disk,
    p: spec_fn(Seq<char>) -> Result<EnvSample, String>,
)
    requires
        on_disk(store, disk, p),
    ensures
        total_bytes(store.segments) == file_sizes(names_of(store.segments), disk),
{
    lemma_segments_size(store.segments, disk, p);
}

/// Segments that describe their files have their sizes.
proof fn lemma_segments_size(
    segments: Seq<SegmentView>,
    disk: Disk,
    p: spec_fn(Seq<char>) -> Result<EnvSample, String>,
)
    requires
        forall|i: int| 0 <= i < segments.len() ==> describes(#[trigger] segments[i], disk, p),
    ensures
        total_bytes(segments) == file_sizes(names_of(segments), disk),
    decreases segments.len(),
{
    if segments.len() > 0 {
        assert(describes(segments[segments.len() - 1], disk, p));
        assert(names_of(segments).drop_last() =~= names_of(segments.drop_last()));
        assert forall|i: int| 0 <= i < segments.drop_last().len() implies describes(
            #[trigger] segments.drop_last()[i],
            disk,
            p,
        ) by {
            assert(segments.drop_last()[i] == segments[i]);
        }
        lemma_segments_size(segments.drop_last(), disk, p);
    }
}

/// **Replay gives back what was stored**, in append order.
pub proof fn law_replay_gives_back<
    R: Fn(&String) -> Result<Vec<u8>, StoreError>,
    F: Fn(&str) -> Result<EnvSample, String>,
>(
    store: ObservationView,
    disk: Disk,
    p: spec_fn(Seq<char>) -> Result<EnvSample, String>,
    names: Seq<String>,
    read: R,
    parse: F,
    result: Result<Vec<EnvSample>, StoreError>,
)
    requires
        on_disk(store, disk, p),
        serves(read, disk),
        computes(parse, p),
        texts(names) == names_of(store.segments),
        replay_yields(names, read, parse, result),
    ensures
        result is Ok,
        result->Ok_0@ == samples_on(store, disk, p),
{
    lemma_replay_gives_stored(
        names,
        names_of(store.segments),
        disk,
        read,
        parse,
        p,
        result,
    );
}

/// What a store that was opened over these batches is.
proof fn lemma_store_of_batches(
    store: ObservationView,
    disk: Disk,
    p: spec_fn(Seq<char>) -> Result<EnvSample, String>,
    batches: Seq<Batch<EnvSample>>,
    segment_max_records: usize,
    kept: Set<(u64, u32)>,
)
    requires
        on_disk(store, disk, p),
        batches.len() == store.segments.len(),
        forall|i: int|
            0 <= i < batches.len() ==> {
                let batch = #[trigger] batches[i];
                &&& batch.records@ == records_in(disk[store.segments[i].name], p)
                &&& batch.size == disk[store.segments[i].name].len()
                &&& batch.unterminated == !ends_clean(disk[store.segments[i].name])
            },
    ensures
        ({
            let opened = store_of(
                indexed(names_of(store.segments), "obs"@),
                batches,
                segment_max_records,
                kept,
            );
            &&& opened.segments == store.segments
            &&& opened.unterminated == store.unterminated
            &&& opened.next_segment_index == store.next_segment_index
            &&& opened.seen == keys_of(samples_on(store, disk, p)).union(kept)
            &&& remembered(store, disk, p, kept) ==> opened.seen == store.seen
            &&& on_disk(opened, disk, p)
        }),
{
    let names = names_of(store.segments);
    let listing = indexed(names, "obs"@);
    let opened = store_of(listing, batches, segment_max_records, kept);
    assert forall|i: int| 0 <= i < batches.len() implies (#[trigger] batches[i]).records@
        == records_in(disk[names[i]], p) by {
        assert(names[i] == store.segments[i].name);
    }
    lemma_chain_is_stored(batches, names, disk, p);
    assert(opened.segments.len() == store.segments.len());
    assert forall|i: int| 0 <= i < opened.segments.len() implies opened.segments[i]
        == store.segments[i] by {
        assert(describes(store.segments[i], disk, p));
        assert(batches[i].records@ == records_in(disk[store.segments[i].name], p));
        assert(listing[i].0 == store.segments[i].name);
    }
    assert(opened.segments =~= store.segments);
    if batches.len() > 0 {
        assert(listing[batches.len() - 1].1 == index_in(names.last(), "obs"@));
        assert(batches[batches.len() - 1].unterminated == !ends_clean(disk[names.last()]));
    }
    if remembered(store, disk, p, kept) {
        assert(opened.seen =~= store.seen);
    }
}

/// **A store survives a restart.** Opening the disk that a store describes
/// succeeds without repair and gives the same segments and the same place to
/// go on. The dedup index knows every sample on the disk and every key that
/// was kept; where the keys were kept as they must be, it is the same.
pub proof fn law_reopen_gives_back<
    R: Fn(&String) -> Result<Vec<u8>, StoreError>,
    F: Fn(&str) -> Result<EnvSample, String>,
>(
    store: ObservationView,
    disk: Disk,
    p: spec_fn(Seq<char>) -> Result<EnvSample, String>,
    files: Seq<String>,
    segment_max_records: usize,
    kept: Set<(u64, u32)>,
    read: R,
    parse: F,
    result: Result<(ObservationView, Option<Repair>), StoreError>,
)
    requires
        on_disk(store, disk, p),
        lists_disk(files, disk),
        serves(read, disk),
        computes(parse, p),
        open_yields(files, segment_max_records, kept, read, parse, result),
    ensures
        result is Ok,
        result->Ok_0.1 is None,
        result->Ok_0.0.segments == store.segments,
        result->Ok_0.0.unterminated == store.unterminated,
        result->Ok_0.0.next_segment_index == store.next_segment_index,
        result->Ok_0.0.seen == keys_of(samples_on(store, disk, p)).union(kept),
        remembered(store, disk, p, kept) ==> result->Ok_0.0.seen == store.seen,
        on_disk(result->Ok_0.0, disk, p),
{
    let names = names_of(store.segments);
    let listing = indexed(names, "obs"@);
    lemma_listing_is_layout(files, names, "obs"@, store.next_segment_index, disk);
    lemma_open_gives_stored(names, "obs"@, disk, read, parse, p);
    match result {
        Ok((opened, repair)) => {
            let batches = choose|batches: Seq<Batch<EnvSample>>| #[trigger]
                opened_prefix(listing, read, parse, batches) && batches.len() == listing.len()
                    && opened == store_of(listing, batches, segment_max_records, kept) && repair_needed(
                    listing,
                    batches,
                    repair,
                );
            assert forall|i: int| 0 <= i < batches.len() implies {
                let batch = #[trigger] batches[i];
                &&& batch.records@ == records_in(disk[store.segments[i].name], p)
                &&& batch.size == disk[store.segments[i].name].len()
                &&& batch.unterminated == !ends_clean(disk[store.segments[i].name])
            } by {
                assert(names[i] == store.segments[i].name);
            }
            lemma_store_of_batches(store, disk, p, batches, segment_max_records, kept);
        },
        Err(error) => {
            assert(!open_fails::<EnvSample, R, F>(listing, read, parse, error));
        },
    }
}

/// **A sample that expired stays a duplicate**, also after a restart: every
/// key that the store knew before it, the store knows after it, where the keys
/// were kept as they must be.
pub proof fn law_known_sample_stays_duplicate<
    R: Fn(&String) -> Result<Vec<u8>, StoreError>,
    F: Fn(&str) -> Result<EnvSample, String>,
    W: FnOnce(&String, &Vec<u8>) -> Result<(), StoreError>,
>(
    store: ObservationView,
    disk: Disk,
    p: spec_fn(Seq<char>) -> Result<EnvSample, String>,
    files: Seq<String>,
    segment_max_records: usize,
    kept: Set<(u64, u32)>,
    read: R,
    parse: F,
    opened: ObservationView,
    repair: Option<Repair>,
    sample: EnvSample,
    line: Result<Vec<u8>, String>,
    write: W,
    result: Result<AppendOutcome, StoreError>,
    after: ObservationView,
)
    requires
        on_disk(store, disk, p),
        remembered(store, disk, p, kept),
        lists_disk(files, disk),
        serves(read, disk),
        computes(parse, p),
        open_yields(files, segment_max_records, kept, read, parse, Ok((opened, repair))),
        store.seen.contains(sample.key()),
        append_yields(opened, sample, Ok(()), line, write, result, after),
    ensures
        result == Ok::<AppendOutcome, StoreError>(AppendOutcome::Duplicate),
        after == opened.with_duplicate(),
{
    law_reopen_gives_back(
        store,
        disk,
        p,
        files,
        segment_max_records,
        kept,
        read,
        parse,
        Ok((opened, repair)),
    );
}

/// **A torn last line is cut off.** Where the last file ends in a line that
/// does not decode, with or without its newline, opening gives the store
/// without that line, and asks for the file to be cut back to what it was, up
/// to the newline of the line before.
pub proof fn law_torn_tail_is_repaired<
    R: Fn(&String) -> Result<Vec<u8>, StoreError>,
    F: Fn(&str) -> Result<EnvSample, String>,
>(
    store: ObservationView,
    disk: Disk,
    p: spec_fn(Seq<char>) -> Result<EnvSample, String>,
    torn: Seq<u8>,
    newline: bool,
    files: Seq<String>,
    segment_max_records: usize,
    kept: Set<(u64, u32)>,
    read: R,
    parse: F,
    result: Result<(ObservationView, Option<Repair>), StoreError>,
)
    requires
        on_disk(store, disk, p),
        store.segments.len() > 0,
        disk[store.segments.last().name].len() < u64::MAX,
        is_one_line(torn),
        torn.len() > 0 || newline,
        forall|sample: EnvSample| !#[trigger] line_reads_as(torn, p, sample),
        lists_disk(files, disk),
        serves(
            read,
            with_torn_tail(
                with_closed(disk, store.segments.last().name),
                store.segments.last().name,
                torn,
                newline,
            ),
        ),
        computes(parse, p),
        open_yields(files, segment_max_records, kept, read, parse, result),
    ensures
        result is Ok,
        result->Ok_0.0.segments == closed_tail(store).segments,
        result->Ok_0.0.next_segment_index == store.next_segment_index,
        result->Ok_0.0.seen == keys_of(samples_on(store, disk, p)).union(kept),
        remembered(store, disk, p, kept) ==> result->Ok_0.0.seen == store.seen,
        ({
            let disk2 = with_closed(disk, store.segments.last().name);
            &&& on_disk(result->Ok_0.0, disk2, p)
            &&& samples_on(result->Ok_0.0, disk2, p) == samples_on(store, disk, p)
            &&& result->Ok_0.1 is Some
            &&& result->Ok_0.1->0.segment@ == store.segments.last().name
            &&& result->Ok_0.1->0.size == disk2[store.segments.last().name].len()
        }),
{
    let last = store.segments.last().name;
    let ended = closed_tail(store);
    let disk2 = with_closed(disk, last);
    law_newline_alone_adds_nothing(store, disk, p);
    let names = names_of(ended.segments);
    assert(names =~= names_of(store.segments));
    assert(names.last() == last);
    assert(disk.contains_key(names[names.len() - 1]));
    assert(disk2.dom() =~= disk.dom());
    let listing = indexed(names, "obs"@);
    lemma_listing_is_layout(files, names, "obs"@, store.next_segment_index, disk2);
    lemma_open_finds_tear(names, "obs"@, disk2, torn, newline, read, parse, p);
    match result {
        Ok((opened, repair)) => {
            let batches = choose|batches: Seq<Batch<EnvSample>>| #[trigger]
                opened_prefix(listing, read, parse, batches) && batches.len() == listing.len()
                    && opened == store_of(listing, batches, segment_max_records, kept)
                    && repair_needed(listing, batches, repair);
            assert forall|i: int| 0 <= i < batches.len() implies {
                let batch = #[trigger] batches[i];
                &&& batch.records@ == records_in(disk2[ended.segments[i].name], p)
                &&& batch.size == disk2[ended.segments[i].name].len()
                &&& batch.unterminated == !ends_clean(disk2[ended.segments[i].name])
            } by {
                assert(names[i] == ended.segments[i].name);
            }
            lemma_store_of_batches(ended, disk2, p, batches, segment_max_records, kept);
            assert(batches[names.len() - 1].torn);
            assert(listing[names.len() - 1].0 == last);
        },
        Err(error) => {
            assert(!open_fails::<EnvSample, R, F>(listing, read, parse, error));
        },
    }
}

/// The disk without the files of these segments.
pub open spec fn without_files(disk: Disk, gone: Seq<SegmentView>) -> Disk
    decreases gone.len(),
{
    if gone.len() == 0 {
        disk
    } else {
        without_files(disk, gone.drop_last()).remove(gone.last().name)
    }
}

/// A file that is of none of these segments stays as it is.
proof fn lemma_other_file_stays(disk: Disk, gone: Seq<SegmentView>, name: Seq<char>)
    requires
        disk.contains_key(name),
        forall|i: int| 0 <= i < gone.len() ==> (#[trigger] gone[i]).name != name,
    ensures
        without_files(disk, gone).contains_key(name),
        without_files(disk, gone)[name] == disk[name],
    decreases gone.len(),
{
    if gone.len() > 0 {
        assert(gone[gone.len() - 1].name != name);
        assert forall|i: int| 0 <= i < gone.drop_last().len() implies (
        #[trigger] gone.drop_last()[i]).name != name by {
            assert(gone[i].name != name);
        }
        lemma_other_file_stays(disk, gone.drop_last(), name);
    }
}

/// The sample has expired: its time of measurement plus the retention time has
/// come.
pub open spec fn sample_expired(sample: EnvSample, now_ns: u64, retention_ns: u64) -> bool {
    sample.measured_ns + retention_ns <= now_ns
}

/// No record was measured later than the latest one.
proof fn lemma_max_measured(records: Seq<EnvSample>)
    ensures
        forall|i: int|
            0 <= i < records.len() ==> (#[trigger] records[i]).measured_ns <= max_measured(records),
    decreases records.len(),
{
    if records.len() > 0 {
        lemma_max_measured(records.drop_last());
        assert forall|i: int| 0 <= i < records.len() implies (#[trigger] records[i]).measured_ns
            <= max_measured(records) by {
            if i < records.len() - 1 {
                assert(records.drop_last()[i] == records[i]);
            }
        }
    }
}

/// Dropping one segment with its file, other than the last, loses its
/// records and no others.
proof fn lemma_drop_segment(
    store: ObservationView,
    disk: Disk,
    p: spec_fn(Seq<char>) -> Result<EnvSample, String>,
    i: int,
)
    requires
        on_disk(store, disk, p),
        0 <= i < store.segments.len() - 1,
    ensures
        ({
            let name = store.segments[i].name;
            let after = ObservationView { segments: store.segments.remove(i), ..store };
            let lost = records_in(disk[name], p);
            let left = samples_on(after, disk.remove(name), p);
            &&& on_disk(after, disk.remove(name), p)
            &&& samples_on(store, disk, p).len() == left.len() + lost.len()
            &&& forall|s: EnvSample| #[trigger]
                left.contains(s) ==> samples_on(store, disk, p).contains(s)
            &&& forall|s: EnvSample| #[trigger]
                samples_on(store, disk, p).contains(s) ==> left.contains(s) || lost.contains(s)
            &&& distinct_keys(samples_on(store, disk, p)) ==> distinct_keys(left)
        }),
{
    let names = names_of(store.segments);
    let name = store.segments[i].name;
    assert(names[i] == name);
    let after = ObservationView { segments: store.segments.remove(i), ..store };
    let disk2 = disk.remove(name);
    lemma_drop_keeps_layout(names, "obs"@, store.next_segment_index, disk, p, i);
    assert(names_of(after.segments) =~= names.remove(i));
    lemma_names_distinct(names, "obs"@);
    let head = stored(names.take(i), disk, p);
    let lost = records_in(disk[name], p);
    let tail = stored(names.skip(i + 1), disk, p);
    let all = samples_on(store, disk, p);
    let left = samples_on(after, disk2, p);
    assert(all == head + lost + tail);
    assert(left == head + tail);
    assert forall|k: int| 0 <= k < left.len() implies #[trigger] left[k] == all[if k < head.len() {
        k
    } else {
        k + lost.len()
    }] by {}
    assert forall|k: int| 0 <= k < all.len() implies left.contains(#[trigger] all[k])
        || lost.contains(all[k]) by {
        if k < head.len() {
            assert(left[k] == all[k]);
        } else if k < head.len() + lost.len() {
            assert(lost[k - head.len()] == all[k]);
        } else {
            assert(left[k - lost.len()] == all[k]);
        }
    }
    assert forall|s: EnvSample| #[trigger] left.contains(s) implies all.contains(s) by {
        let k = choose|k: int| 0 <= k < left.len() && left[k] == s;
        assert(all.contains(all[if k < head.len() {
            k
        } else {
            k + lost.len()
        }]));
    }
    assert forall|key: (u64, u32)| keys_of(left).contains(key) implies store.seen.contains(key) by {
        lemma_keys_contains(left, key);
        lemma_keys_contains(all, key);
        let k = choose|k: int| 0 <= k < left.len() && #[trigger] left[k].key() == key;
        let m = if k < head.len() {
            k
        } else {
            k + lost.len()
        };
        assert(all[m].key() == key);
        assert(keys_of(all).contains(key));
    }
    assert forall|k: int| 0 <= k < after.segments.len() implies describes(
        #[trigger] after.segments[k],
        disk2,
        p,
    ) by {
        let m = if k < i {
            k
        } else {
            k + 1
        };
        assert(after.segments[k] == store.segments[m]);
        assert(describes(store.segments[m], disk, p));
        assert(names[m] != names[i]);
    }
}

/// The state of a retention pass that has gone over `k` segments.
proof fn lemma_retention_prefix(
    before: ObservationView,
    disk: Disk,
    p: spec_fn(Seq<char>) -> Result<EnvSample, String>,
    now_ns: u64,
    retention_ns: u64,
    k: int,
)
    requires
        on_disk(before, disk, p),
        0 <= k <= closed_segments(before.segments).len(),
    ensures
        ({
            let seen = closed_segments(before.segments).take(k);
            let after = ObservationView {
                segments: unexpired(seen, now_ns, retention_ns) + before.segments.skip(k),
                ..before
            };
            let disk2 = without_files(disk, expired(seen, now_ns, retention_ns));
            let all = samples_on(before, disk, p);
            let left = samples_on(after, disk2, p);
            &&& on_disk(after, disk2, p)
            &&& left.len() + total_records(expired(seen, now_ns, retention_ns)) == all.len()
            &&& forall|s: EnvSample| #[trigger] left.contains(s) ==> all.contains(s)
            &&& forall|s: EnvSample| #[trigger]
                all.contains(s) && !sample_expired(s, now_ns, retention_ns) ==> left.contains(s)
            &&& distinct_keys(all) ==> distinct_keys(left)
        }),
    decreases k,
{
    let closed = closed_segments(before.segments);
    let now_seen = closed.take(k);
    if k == 0 {
        reveal(Seq::filter);
        assert(now_seen =~= Seq::empty());
        assert(unexpired(now_seen, now_ns, retention_ns) =~= Seq::empty());
        assert(expired(now_seen, now_ns, retention_ns) =~= Seq::empty());
        assert(unexpired(now_seen, now_ns, retention_ns) + before.segments.skip(0)
            =~= before.segments);
    } else {
        lemma_retention_prefix(before, disk, p, now_ns, retention_ns, k - 1);
        lemma_retention_step(closed, k - 1, now_ns, retention_ns);
        let segment = closed[k - 1];
        let kept = unexpired(closed.take(k - 1), now_ns, retention_ns);
        let gone = expired(closed.take(k - 1), now_ns, retention_ns);
        let earlier_state = ObservationView {
            segments: kept + before.segments.skip(k - 1),
            ..before
        };
        let earlier_disk = without_files(disk, gone);
        let i = kept.len() as int;
        assert(before.segments.skip(k - 1)[0] == segment);
        assert(earlier_state.segments[i] == segment);
        assert(describes(earlier_state.segments[i], earlier_disk, p));
        if segment.expired(now_ns, retention_ns) {
            lemma_drop_segment(earlier_state, earlier_disk, p, i);
            assert(earlier_state.segments.remove(i) =~= kept + before.segments.skip(k));
            assert(gone.push(segment).drop_last() =~= gone);
            let lost = records_in(earlier_disk[segment.name], p);
            lemma_max_measured(lost);
            assert forall|s: EnvSample| #[trigger] lost.contains(s) implies sample_expired(
                s,
                now_ns,
                retention_ns,
            ) by {}
        } else {
            assert(earlier_state.segments =~= kept.push(segment) + before.segments.skip(k));
        }
    }
}

/// **Retention drops expired samples only.** After a pass, with the files it
/// asked to remove gone, the store is still what the disk holds, the number
/// it gave is that of the samples gone, every sample that has not expired is
/// still there, nothing new is, and the dedup index is as it was: a sample
/// that comes again is a duplicate still. The keys that the store had before
/// the pass are what must be kept beside the disk. Every file that is not that
/// of an expired segment is there as it was.
pub proof fn law_retention_drops_expired_only<D: Fn(&String) -> Result<(), StoreError>>(
    before: ObservationView,
    disk: Disk,
    p: spec_fn(Seq<char>) -> Result<EnvSample, String>,
    now_ns: u64,
    retention_ns: u64,
    remove: D,
    deleted: u64,
    after: ObservationView,
)
    requires
        on_disk(before, disk, p),
        retention_yields(before, now_ns, retention_ns, remove, Ok(deleted), after),
    ensures
        ({
            let gone = expired(closed_segments(before.segments), now_ns, retention_ns);
            let disk2 = without_files(disk, gone);
            let all = samples_on(before, disk, p);
            let left = samples_on(after, disk2, p);
            &&& on_disk(after, disk2, p)
            &&& left.len() + deleted == all.len()
            &&& forall|s: EnvSample| #[trigger] left.contains(s) ==> all.contains(s)
            &&& forall|s: EnvSample| #[trigger]
                all.contains(s) && !sample_expired(s, now_ns, retention_ns) ==> left.contains(s)
            &&& distinct_keys(all) ==> distinct_keys(left)
            &&& remembered(after, disk2, p, before.seen)
            &&& forall|name: Seq<char>|
                #![trigger disk2.contains_key(name)]
                disk.contains_key(name) && !is_expired_name(
                    closed_segments(before.segments),
                    now_ns,
                    retention_ns,
                    name,
                ) ==> disk2.contains_key(name) && disk2[name] == disk[name]
        }),
        after.seen == before.seen,
{
    let closed = closed_segments(before.segments);
    lemma_retention_prefix(before, disk, p, now_ns, retention_ns, closed.len() as int);
    assert(closed.take(closed.len() as int) =~= closed);
    let gone = expired(closed, now_ns, retention_ns);
    let disk2 = without_files(disk, gone);
    assert forall|name: Seq<char>|
        #![trigger disk2.contains_key(name)]
        disk.contains_key(name) && !is_expired_name(
            closed,
            now_ns,
            retention_ns,
            name,
        ) implies disk2.contains_key(name) && disk2[name] == disk[name] by {
        assert forall|i: int| 0 <= i < gone.len() implies (#[trigger] gone[i]).name != name by {
            let is_expired = |s: SegmentView| s.expired(now_ns, retention_ns);
            closed.lemma_filter_contains_rev(is_expired, gone[i]);
            let j = choose|j: int| 0 <= j < closed.len() && closed[j] == gone[i];
            assert(is_expired(gone[i]));
            assert(closed[j].expired(now_ns, retention_ns));
        }
        lemma_other_file_stays(disk, gone, name);
    }
}

/// `after` is what the disk holds once the files of the expired segments before
/// the `k`-th are gone, and the samples that went with them are counted.
pub open spec fn stopped_at(
    before: ObservationView,
    disk: Disk,
    p: spec_fn(Seq<char>) -> Result<EnvSample, String>,
    now_ns: u64,
    retention_ns: u64,
    after: ObservationView,
    k: int,
) -> bool {
    let gone = expired(closed_segments(before.segments).take(k), now_ns, retention_ns);
    let disk2 = without_files(disk, gone);
    &&& on_disk(after, disk2, p)
    &&& samples_on(after, disk2, p).len() + after.retention_deleted_total == samples_on(
        before,
        disk,
        p,
    ).len() + before.retention_deleted_total
    &&& remembered(after, disk2, p, before.seen)
}

/// A retention pass that stops at a file it cannot remove also leaves the
/// store as what the disk holds, with the files before that one dealt with and
/// the samples in them counted as deleted.
pub proof fn law_stopped_retention_is_on_disk<D: Fn(&String) -> Result<(), StoreError>>(
    before: ObservationView,
    disk: Disk,
    p: spec_fn(Seq<char>) -> Result<EnvSample, String>,
    now_ns: u64,
    retention_ns: u64,
    remove: D,
    error: StoreError,
    after: ObservationView,
)
    requires
        on_disk(before, disk, p),
        before.retention_deleted_total + total_records(before.segments) <= u64::MAX,
        retention_yields(before, now_ns, retention_ns, remove, Err(error), after),
    ensures
        exists|k: int| 0 <= k < closed_segments(before.segments).len() && stopped_at(
            before,
            disk,
            p,
            now_ns,
            retention_ns,
            after,
            k,
        ),
        after.seen == before.seen,
{
    let closed = closed_segments(before.segments);
    let k = choose|k: int|
        {
            &&& 0 <= k < closed.len()
            &&& (#[trigger] closed[k]).expired(now_ns, retention_ns)
            &&& removal(remove, closed[k].name, Err(error))
            &&& all_removed(
                closed.take(k),
                now_ns,
                retention_ns,
                remove,
            )
            &&& after == ObservationView {
                segments: unexpired(closed.take(k), now_ns, retention_ns) + before.segments.skip(k),
                retention_deleted_total: (before.retention_deleted_total + total_records(
                    expired(closed.take(k), now_ns, retention_ns),
                )) as u64,
                ..before
            }
        };
    lemma_retention_prefix(before, disk, p, now_ns, retention_ns, k);
    law_len_counts_samples(before, disk, p);
    assert(stopped_at(before, disk, p, now_ns, retention_ns, after, k));
}

/// **A corrupt line is named.** Where a line other than a torn tail of the
/// last file does not decode, opening fails and says in which file and at
/// which line: the first such line of the first such file.
pub proof fn law_corrupt_sample_is_named<
    R: Fn(&String) -> Result<Vec<u8>, StoreError>,
    F: Fn(&str) -> Result<EnvSample, String>,
>(
    names: Seq<Seq<char>>,
    next: u64,
    disk: Disk,
    p: spec_fn(Seq<char>) -> Result<EnvSample, String>,
    k: int,
    before: Seq<EnvSample>,
    files: Seq<String>,
    segment_max_records: usize,
    kept: Set<(u64, u32)>,
    read: R,
    parse: F,
    result: Result<(ObservationView, Option<Repair>), StoreError>,
)
    requires
        laid_out(names, "obs"@, next, disk),
        0 <= k < names.len(),
        forall|i: int| 0 <= i < k ==> all_decode(disk[#[trigger] names[i]], p),
        corrupt_after(disk[names[k]], k == names.len() - 1, p, before),
        lists_disk(files, disk),
        serves(read, disk),
        computes(parse, p),
        open_yields(files, segment_max_records, kept, read, parse, result),
    ensures
        result matches Err(StoreError::Corrupt { segment, line, .. }) && segment@ == names[k]
            && line == before.len() + 1,
{
    lemma_listing_is_layout(files, names, "obs"@, next, disk);
    lemma_open_names_corrupt_line(names, "obs"@, disk, read, parse, p, k, before);
    match result {
        Ok(_) => {},
        Err(error) => {
            assert(open_fails::<EnvSample, R, F>(indexed(names, "obs"@), read, parse, error));
        },
    }
}

/// The empty store is what a directory without segment files holds.
pub proof fn law_fresh_sample_directory(
    store: ObservationView,
    disk: Disk,
    p: spec_fn(Seq<char>) -> Result<EnvSample, String>,
)
    requires
        store.segments.len() == 0,
        !store.unterminated,
        store.next_segment_index == 0,
        forall|name: Seq<char>| #[trigger]
            disk.contains_key(name) ==> segment_index(name, "obs"@) is None,
    ensures
        on_disk(store, disk, p),
{
    assert(names_of(store.segments) =~= Seq::empty());
}

} // verus!

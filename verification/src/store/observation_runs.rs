//! What the counters of the observation store say after any run of appends and
//! retention passes.

use crate::error::{AppendOutcome, EnvError, StoreError};
use crate::model::sample::EnvSample;
use crate::store::load::{chain, Batch};
use crate::store::observation_laws::{distinct_keys, lemma_distinct_keys_count};
use crate::store::observations::{
    append_yields, closed_segments, expired, keys_of, lemma_keys_of_add, lemma_part_of_totals,
    lemma_retention_step, lemma_retention_totals, lemma_totals_add, lemma_totals_update,
    retention_yields, segment_of, store_of, stored_keys, total_records, unexpired,
    ObservationView, SegmentView,
};
use crate::store::segment::Listed;
use vstd::prelude::*;
use vstd::set_lib::lemma_len_union;

verus! {

/// What one call gave.
pub enum Outcome {
    Append(Result<AppendOutcome, StoreError>),
    Retention(Result<u64, StoreError>),
}

/// The store took in a new sample, written as `size` bytes.
pub open spec fn takes_in(
    before: ObservationView,
    sample: EnvSample,
    size: int,
    after: ObservationView,
) -> bool {
    &&& !before.seen.contains(sample.key())
    &&& total_records(before.segments) < usize::MAX
    &&& before.appended_total < u64::MAX
    &&& after == before.rolled().with_record(sample, size)
}

/// The store dropped the expired ones among its first `k` closed segments.
pub open spec fn drops(
    before: ObservationView,
    now_ns: u64,
    retention_ns: u64,
    k: int,
    after: ObservationView,
) -> bool {
    let passed = closed_segments(before.segments).take(k);
    &&& 0 <= k <= closed_segments(before.segments).len()
    &&& before.retention_deleted_total + total_records(before.segments) <= u64::MAX
    &&& after == ObservationView {
        segments: unexpired(passed, now_ns, retention_ns) + before.segments.skip(k),
        retention_deleted_total: (before.retention_deleted_total + total_records(
            expired(passed, now_ns, retention_ns),
        )) as u64,
        ..before
    }
}

/// The store went from `before` to `after` in a call that gave `outcome`.
pub open spec fn step(
    before: ObservationView,
    outcome: Outcome,
    after: ObservationView,
) -> bool {
    match outcome {
        Outcome::Append(Ok(AppendOutcome::Appended)) => exists|sample: EnvSample, size: int|
            #[trigger] takes_in(before, sample, size, after),
        Outcome::Append(Ok(AppendOutcome::Duplicate)) => before.duplicates_total < u64::MAX
            && after == before.with_duplicate(),
        Outcome::Append(Err(_)) => after == before || after == before.rolled(),
        Outcome::Retention(result) => exists|now_ns: u64, retention_ns: u64, k: int|
            #[trigger] drops(before, now_ns, retention_ns, k, after) && (result is Ok
                ==> result->Ok_0 == total_records(
                expired(closed_segments(before.segments).take(k), now_ns, retention_ns),
            )),
    }
}

/// Every append is a step.
pub proof fn law_append_is_a_step<W: FnOnce(&String, &Vec<u8>) -> Result<(), StoreError>>(
    before: ObservationView,
    sample: EnvSample,
    check: Result<(), EnvError>,
    line: Result<Vec<u8>, String>,
    write: W,
    result: Result<AppendOutcome, StoreError>,
    after: ObservationView,
)
    requires
        before.has_room(
            if line is Ok {
                line->Ok_0@.len() as int
            } else {
                0
            },
        ),
        append_yields(before, sample, check, line, write, result, after),
    ensures
        step(before, Outcome::Append(result), after),
{
    if result == Ok::<AppendOutcome, StoreError>(AppendOutcome::Appended) {
        assert(takes_in(
            before,
            sample,
            before.rolled().handed_out(line->Ok_0@).len() as int,
            after,
        ));
    }
}

/// Every retention pass is a step.
pub proof fn law_retention_is_a_step<D: Fn(&String) -> Result<(), StoreError>>(
    before: ObservationView,
    now_ns: u64,
    retention_ns: u64,
    remove: D,
    result: Result<u64, StoreError>,
    after: ObservationView,
)
    requires
        before.retention_deleted_total + total_records(before.segments) <= u64::MAX,
        retention_yields(before, now_ns, retention_ns, remove, result, after),
    ensures
        step(before, Outcome::Retention(result), after),
{
    let closed = closed_segments(before.segments);
    match result {
        Ok(deleted) => {
            assert(closed.take(closed.len() as int) =~= closed);
            assert(drops(before, now_ns, retention_ns, closed.len() as int, after));
        },
        Err(error) => {
            let k = choose|k: int|
                {
                    &&& 0 <= k < closed.len()
                    &&& (#[trigger] closed[k]).expired(now_ns, retention_ns)
                    &&& after == ObservationView {
                        segments: unexpired(closed.take(k), now_ns, retention_ns)
                            + before.segments.skip(k),
                        retention_deleted_total: (before.retention_deleted_total + total_records(
                            expired(closed.take(k), now_ns, retention_ns),
                        )) as u64,
                        ..before
                    }
                };
            assert(drops(before, now_ns, retention_ns, k, after));
        },
    }
}

/// A run of calls: what each gave, and the store before the first and after
/// each of them.
pub open spec fn is_run(views: Seq<ObservationView>, outcomes: Seq<Outcome>) -> bool {
    &&& views.len() == outcomes.len() + 1
    &&& forall|i: int|
        0 <= i < outcomes.len() ==> step(views[i], #[trigger] outcomes[i], views[i + 1])
}

/// How many of the calls gave `Appended`.
pub open spec fn appended_in(outcomes: Seq<Outcome>) -> nat
    decreases outcomes.len(),
{
    if outcomes.len() == 0 {
        0
    } else {
        appended_in(outcomes.drop_last()) + if outcomes.last() == Outcome::Append(
            Ok(AppendOutcome::Appended),
        ) {
            1nat
        } else {
            0nat
        }
    }
}

/// How many of the calls gave `Duplicate`.
pub open spec fn duplicates_in(outcomes: Seq<Outcome>) -> nat
    decreases outcomes.len(),
{
    if outcomes.len() == 0 {
        0
    } else {
        duplicates_in(outcomes.drop_last()) + if outcomes.last() == Outcome::Append(
            Ok(AppendOutcome::Duplicate),
        ) {
            1nat
        } else {
            0nat
        }
    }
}

/// The numbers that the retention passes gave, summed.
pub open spec fn deleted_in(outcomes: Seq<Outcome>) -> nat
    decreases outcomes.len(),
{
    if outcomes.len() == 0 {
        0
    } else {
        deleted_in(outcomes.drop_last()) + match outcomes.last() {
            Outcome::Retention(Ok(deleted)) => deleted as nat,
            _ => 0nat,
        }
    }
}

/// No retention pass was stopped.
pub open spec fn passes_complete(outcomes: Seq<Outcome>) -> bool {
    forall|i: int|
        0 <= i < outcomes.len() ==> !((#[trigger] outcomes[i]) is Retention
            && outcomes[i]->Retention_0 is Err)
}

/// A run without its last call.
proof fn lemma_shorter_run(views: Seq<ObservationView>, outcomes: Seq<Outcome>)
    requires
        is_run(views, outcomes),
        outcomes.len() > 0,
    ensures
        is_run(views.drop_last(), outcomes.drop_last()),
        step(views.drop_last().last(), outcomes.last(), views.last()),
        passes_complete(outcomes) ==> passes_complete(outcomes.drop_last()),
{
    let n = outcomes.len() - 1;
    assert(step(views[n], outcomes[n], views[n + 1]));
    assert forall|i: int| 0 <= i < n implies step(
        views.drop_last()[i],
        #[trigger] outcomes.drop_last()[i],
        views.drop_last()[i + 1],
    ) by {
        assert(outcomes.drop_last()[i] == outcomes[i]);
    }
    if passes_complete(outcomes) {
        assert forall|i: int| 0 <= i < n implies !((#[trigger] outcomes.drop_last()[i])
            is Retention && outcomes.drop_last()[i]->Retention_0 is Err) by {
            assert(outcomes.drop_last()[i] == outcomes[i]);
        }
    }
}

/// The records that were dropped fit the counter.
proof fn lemma_dropped(
    before: ObservationView,
    now_ns: u64,
    retention_ns: u64,
    k: int,
    after: ObservationView,
)
    requires
        drops(before, now_ns, retention_ns, k, after),
    ensures
        ({
            let gone = expired(closed_segments(before.segments).take(k), now_ns, retention_ns);
            &&& after.retention_deleted_total == before.retention_deleted_total + total_records(
                gone,
            )
            &&& total_records(after.segments) + total_records(gone) == total_records(
                before.segments,
            )
        }),
{
    let passed = closed_segments(before.segments).take(k);
    let rest = before.segments.skip(k);
    assert(passed + rest =~= before.segments);
    lemma_totals_add(passed, rest);
    lemma_retention_totals(passed, now_ns, retention_ns);
    lemma_totals_add(unexpired(passed, now_ns, retention_ns), rest);
}

/// **The counters count.** Over any run of calls, `appended_total` and
/// `duplicates_total` grow by the number of calls that gave `Appended` and
/// `Duplicate`, and `retention_deleted_total`, where no pass was stopped, by
/// the sum of what the passes gave.
pub proof fn law_counters_count_outcomes(views: Seq<ObservationView>, outcomes: Seq<Outcome>)
    requires
        is_run(views, outcomes),
    ensures
        views.last().appended_total == views[0].appended_total + appended_in(outcomes),
        views.last().duplicates_total == views[0].duplicates_total + duplicates_in(outcomes),
        passes_complete(outcomes) ==> views.last().retention_deleted_total
            == views[0].retention_deleted_total + deleted_in(outcomes),
    decreases outcomes.len(),
{
    if outcomes.len() > 0 {
        lemma_shorter_run(views, outcomes);
        law_counters_count_outcomes(views.drop_last(), outcomes.drop_last());
        let before = views.drop_last().last();
        let after = views.last();
        assert(views.drop_last()[0] == views[0]);
        match outcomes.last() {
            Outcome::Retention(result) => {
                let (now_ns, retention_ns, k) = choose|now_ns: u64, retention_ns: u64, k: int|
                    #[trigger] drops(before, now_ns, retention_ns, k, after) && (result is Ok
                        ==> result->Ok_0 == total_records(
                        expired(closed_segments(before.segments).take(k), now_ns, retention_ns),
                    ));
                lemma_dropped(before, now_ns, retention_ns, k, after);
                assert(passes_complete(outcomes) ==> !(outcomes[outcomes.len() - 1] is Retention
                    && outcomes[outcomes.len() - 1]->Retention_0 is Err));
            },
            _ => {},
        }
    } else {
        assert(views.last() == views[0]);
    }
}

// ---------------------------------------------------------------------------
// Records
// ---------------------------------------------------------------------------

/// No segment has more keys than records.
pub open spec fn keys_bounded(segments: Seq<SegmentView>) -> bool {
    forall|i: int|
        0 <= i < segments.len() ==> (#[trigger] segments[i]).keys.finite() && segments[i].keys.len()
            <= segments[i].records
}

/// No key is stored twice, and every key that is stored is in the dedup index.
pub open spec fn tidy(store: ObservationView) -> bool {
    &&& keys_bounded(store.segments)
    &&& stored_keys(store.segments).len() == total_records(store.segments)
    &&& stored_keys(store.segments).subset_of(store.seen)
}

/// There are no more keys than records.
proof fn lemma_keys_bounded(segments: Seq<SegmentView>)
    requires
        keys_bounded(segments),
    ensures
        stored_keys(segments).finite(),
        stored_keys(segments).len() <= total_records(segments),
    decreases segments.len(),
{
    if segments.len() > 0 {
        let fewer = segments.drop_last();
        assert forall|i: int| 0 <= i < fewer.len() implies (#[trigger] fewer[i]).keys.finite()
            && fewer[i].keys.len() <= fewer[i].records by {
            assert(fewer[i] == segments[i]);
        }
        lemma_keys_bounded(fewer);
        assert(segments[segments.len() - 1].keys.finite());
        lemma_len_union(stored_keys(fewer), segments.last().keys);
    }
}

/// Keys of two lists of segments.
proof fn lemma_keys_add(a: Seq<SegmentView>, b: Seq<SegmentView>)
    ensures
        stored_keys(a + b) == stored_keys(a).union(stored_keys(b)),
    decreases b.len(),
{
    if b.len() == 0 {
        assert(a + b =~= a);
        assert(stored_keys(a).union(stored_keys(b)) =~= stored_keys(a));
    } else {
        assert((a + b).drop_last() =~= a + b.drop_last());
        lemma_keys_add(a, b.drop_last());
        assert(stored_keys(a + b) =~= stored_keys(a).union(stored_keys(b)));
    }
}

/// What is dropped and what is kept have all the keys between them.
proof fn lemma_retention_keys(segments: Seq<SegmentView>, now_ns: u64, retention_ns: u64)
    requires
        keys_bounded(segments),
    ensures
        stored_keys(segments) == stored_keys(expired(segments, now_ns, retention_ns)).union(
            stored_keys(unexpired(segments, now_ns, retention_ns)),
        ),
        keys_bounded(expired(segments, now_ns, retention_ns)),
        keys_bounded(unexpired(segments, now_ns, retention_ns)),
    decreases segments.len(),
{
    reveal(Seq::filter);
    if segments.len() > 0 {
        let n = segments.len() - 1;
        let fewer = segments.drop_last();
        assert forall|i: int| 0 <= i < fewer.len() implies (#[trigger] fewer[i]).keys.finite()
            && fewer[i].keys.len() <= fewer[i].records by {
            assert(fewer[i] == segments[i]);
        }
        lemma_retention_keys(fewer, now_ns, retention_ns);
        lemma_retention_step(segments, n, now_ns, retention_ns);
        assert(segments.take(n + 1) =~= segments);
        assert(segments.take(n) =~= fewer);
        let e = expired(fewer, now_ns, retention_ns);
        let u = unexpired(fewer, now_ns, retention_ns);
        assert(e.push(segments[n]).drop_last() =~= e);
        assert(u.push(segments[n]).drop_last() =~= u);
        assert(stored_keys(segments) =~= stored_keys(
            expired(segments, now_ns, retention_ns),
        ).union(stored_keys(unexpired(segments, now_ns, retention_ns))));
    } else {
        assert(stored_keys(segments) =~= stored_keys(
            expired(segments, now_ns, retention_ns),
        ).union(stored_keys(unexpired(segments, now_ns, retention_ns))));
    }
}

/// Starting a segment changes neither keys nor records.
proof fn lemma_rolled_is_tidy(before: ObservationView)
    requires
        tidy(before),
    ensures
        tidy(before.rolled()),
        stored_keys(before.rolled().segments) == stored_keys(before.segments),
        total_records(before.rolled().segments) == total_records(before.segments),
{
    let rolled = before.rolled();
    if before.must_roll() {
        assert(rolled.segments.drop_last() =~= before.segments);
        assert(stored_keys(rolled.segments) =~= stored_keys(before.segments));
        assert forall|i: int| 0 <= i < rolled.segments.len() implies (
        #[trigger] rolled.segments[i]).keys.finite() && rolled.segments[i].keys.len()
            <= rolled.segments[i].records by {
            if i < before.segments.len() {
                assert(rolled.segments[i] == before.segments[i]);
            }
        }
    }
}

/// One more sample is one more key and one more record.
proof fn lemma_taken_in(
    before: ObservationView,
    sample: EnvSample,
    size: int,
    after: ObservationView,
)
    requires
        tidy(before),
        takes_in(before, sample, size, after),
    ensures
        tidy(after),
        stored_keys(after.segments) == stored_keys(before.segments).insert(sample.key()),
        stored_keys(after.segments).len() == stored_keys(before.segments).len() + 1,
{
    let rolled = before.rolled();
    let n = rolled.segments.len() - 1;
    let grown = rolled.segments.last().grown(sample, size);
    lemma_rolled_is_tidy(before);
    lemma_keys_bounded(rolled.segments);
    lemma_part_of_totals(rolled.segments, n);
    lemma_totals_update(rolled.segments, n, grown);
    assert(after.segments.drop_last() =~= rolled.segments.drop_last());
    assert(stored_keys(after.segments) =~= stored_keys(rolled.segments).insert(sample.key()));
    assert(rolled.segments[n].keys.finite());
    assert forall|i: int| 0 <= i < after.segments.len() implies (
    #[trigger] after.segments[i]).keys.finite() && after.segments[i].keys.len()
        <= after.segments[i].records by {
        if i < n {
            assert(after.segments[i] == rolled.segments[i]);
        }
    }
}

/// Dropping segments drops as many keys as records.
proof fn lemma_dropped_is_tidy(
    before: ObservationView,
    now_ns: u64,
    retention_ns: u64,
    k: int,
    after: ObservationView,
)
    requires
        tidy(before),
        drops(before, now_ns, retention_ns, k, after),
    ensures
        tidy(after),
        stored_keys(after.segments).len() + after.retention_deleted_total == stored_keys(
            before.segments,
        ).len() + before.retention_deleted_total,
{
    let passed = closed_segments(before.segments).take(k);
    let rest = before.segments.skip(k);
    let gone = expired(passed, now_ns, retention_ns);
    let kept = unexpired(passed, now_ns, retention_ns);
    lemma_dropped(before, now_ns, retention_ns, k, after);
    assert(passed + rest =~= before.segments);
    assert forall|i: int| 0 <= i < passed.len() implies (#[trigger] passed[i]).keys.finite()
        && passed[i].keys.len() <= passed[i].records by {
        assert(passed[i] == before.segments[i]);
    }
    assert forall|i: int| 0 <= i < rest.len() implies (#[trigger] rest[i]).keys.finite()
        && rest[i].keys.len() <= rest[i].records by {
        assert(rest[i] == before.segments[k + i]);
    }
    lemma_retention_keys(passed, now_ns, retention_ns);
    assert forall|i: int| 0 <= i < (kept + rest).len() implies (
    #[trigger] (kept + rest)[i]).keys.finite() && (kept + rest)[i].keys.len() <= (kept
        + rest)[i].records by {
        if i < kept.len() {
            assert((kept + rest)[i] == kept[i]);
        } else {
            assert((kept + rest)[i] == rest[i - kept.len()]);
        }
    }
    lemma_keys_add(passed, rest);
    lemma_keys_add(kept, rest);
    assert(stored_keys(before.segments) =~= stored_keys(gone).union(stored_keys(kept + rest)));
    lemma_keys_bounded(gone);
    lemma_keys_bounded(kept + rest);
    lemma_len_union(stored_keys(gone), stored_keys(kept + rest));
}

/// **The records add up.** Where no key was stored twice at the start of a run,
/// none is at its end; what `len` reports is then the sum of the records of the
/// segments, and together with what retention deleted it is what it was at the
/// start and what was appended since. This holds of every run, also where
/// writes failed and passes were stopped.
pub proof fn law_records_add_up(views: Seq<ObservationView>, outcomes: Seq<Outcome>)
    requires
        is_run(views, outcomes),
        tidy(views[0]),
    ensures
        tidy(views.last()),
        stored_keys(views.last().segments).len() == total_records(views.last().segments),
        stored_keys(views.last().segments).len() + views.last().retention_deleted_total
            == stored_keys(views[0].segments).len() + views[0].retention_deleted_total
            + appended_in(outcomes),
    decreases outcomes.len(),
{
    if outcomes.len() > 0 {
        lemma_shorter_run(views, outcomes);
        let before = views.drop_last().last();
        let after = views.last();
        assert(views.drop_last()[0] == views[0]);
        law_records_add_up(views.drop_last(), outcomes.drop_last());
        match outcomes.last() {
            Outcome::Append(Ok(AppendOutcome::Appended)) => {
                let (sample, size) = choose|sample: EnvSample, size: int|
                    #[trigger] takes_in(before, sample, size, after);
                lemma_taken_in(before, sample, size, after);
            },
            Outcome::Append(Ok(AppendOutcome::Duplicate)) => {},
            Outcome::Append(Err(_)) => {
                lemma_rolled_is_tidy(before);
            },
            Outcome::Retention(result) => {
                let (now_ns, retention_ns, k) = choose|now_ns: u64, retention_ns: u64, k: int|
                    #[trigger] drops(before, now_ns, retention_ns, k, after) && (result is Ok
                        ==> result->Ok_0 == total_records(
                        expired(closed_segments(before.segments).take(k), now_ns, retention_ns),
                    ));
                lemma_dropped_is_tidy(before, now_ns, retention_ns, k, after);
            },
        }
    } else {
        assert(views.last() == views[0]);
    }
}

/// The segments of the batches, as `open` builds them.
spec fn segments_of(listing: Seq<Listed>, batches: Seq<Batch<EnvSample>>) -> Seq<SegmentView> {
    Seq::new(
        batches.len(),
        |i: int| segment_of(listing[i].0, batches[i].records@, batches[i].size),
    )
}

/// Segments of batches have the keys and the records of the batches.
proof fn lemma_segments_of(listing: Seq<Listed>, batches: Seq<Batch<EnvSample>>)
    ensures
        keys_bounded(segments_of(listing, batches)),
        stored_keys(segments_of(listing, batches)) == keys_of(chain(batches)),
        total_records(segments_of(listing, batches)) == chain(batches).len(),
    decreases batches.len(),
{
    let segments = segments_of(listing, batches);
    assert forall|i: int| 0 <= i < segments.len() implies (#[trigger] segments[i]).keys.finite()
        && segments[i].keys.len() <= segments[i].records by {
        lemma_keys_of_bound(batches[i].records@);
        assert(batches[i].records@.len() == batches[i].records.len());
    }
    if batches.len() > 0 {
        let fewer = batches.drop_last();
        lemma_segments_of(listing, fewer);
        assert(segments.drop_last() =~= segments_of(listing, fewer));
        lemma_keys_of_add(chain(fewer), batches.last().records@);
        assert(batches.last().records@.len() == batches.last().records.len());
    }
}

/// Samples have no more keys than there are samples.
proof fn lemma_keys_of_bound(samples: Seq<EnvSample>)
    ensures
        keys_of(samples).finite(),
        keys_of(samples).len() <= samples.len(),
    decreases samples.len(),
{
    if samples.len() > 0 {
        lemma_keys_of_bound(samples.drop_last());
    }
}

/// A store that was opened over files in which no key comes twice is tidy,
/// whatever the files are named, and its counters are at zero.
pub proof fn law_opened_store_is_tidy(
    listing: Seq<Listed>,
    batches: Seq<Batch<EnvSample>>,
    segment_max_records: usize,
    kept: Set<(u64, u32)>,
)
    requires
        distinct_keys(chain(batches)),
    ensures
        ({
            let opened = store_of(listing, batches, segment_max_records, kept);
            &&& tidy(opened)
            &&& stored_keys(opened.segments).len() == chain(batches).len()
            &&& opened.appended_total == 0
            &&& opened.duplicates_total == 0
            &&& opened.retention_deleted_total == 0
        }),
{
    let opened = store_of(listing, batches, segment_max_records, kept);
    lemma_segments_of(listing, batches);
    assert(opened.segments =~= segments_of(listing, batches));
    lemma_distinct_keys_count(chain(batches));
}

} // verus!

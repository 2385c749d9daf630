//! Observations of a time window, grouped by modality.

use crate::model::sample::EnvSample;
use crate::text::{lemma_lex_irreflexive, lemma_lex_transitive, lex_lt, relate, Relation};
use vstd::prelude::*;
use vstd::string::*;

verus! {

/// The bits of one observed value and of its quality score.
pub type Reading = (u64, u32);

/// Whether a sample was measured in `[start_ns, end_ns)`.
pub open spec fn in_window(sample: EnvSample, start_ns: u64, end_ns: u64) -> bool {
    start_ns <= sample.measured_ns < end_ns
}

/// The readings of one modality in the window, in order of arrival.
pub open spec fn readings_of(
    samples: Seq<EnvSample>,
    start_ns: u64,
    end_ns: u64,
    modality: Seq<char>,
) -> Seq<Reading>
    decreases samples.len(),
{
    if samples.len() == 0 {
        Seq::empty()
    } else {
        let before = readings_of(samples.drop_last(), start_ns, end_ns, modality);
        let last = samples.last();
        if in_window(last, start_ns, end_ns) && last.modality@ == modality {
            before.push((last.value_bits, last.quality_bits))
        } else {
            before
        }
    }
}

/// The groups are the modalities of the window, in order of their names, each
/// with its readings.
pub open spec fn grouped(
    groups: Seq<(String, Vec<Reading>)>,
    samples: Seq<EnvSample>,
    start_ns: u64,
    end_ns: u64,
) -> bool {
    &&& forall|i: int, j: int|
        0 <= i < j < groups.len() ==> lex_lt((#[trigger] groups[i]).0@, (#[trigger] groups[j]).0@)
    &&& forall|i: int|
        0 <= i < groups.len() ==> {
            let group = #[trigger] groups[i];
            group.1@ == readings_of(samples, start_ns, end_ns, group.0@)
        }
    &&& forall|i: int| 0 <= i < groups.len() ==> (#[trigger] groups[i]).1@.len() > 0
    &&& forall|modality: Seq<char>|
        (#[trigger] readings_of(samples, start_ns, end_ns, modality)).len() > 0 ==> exists|i: int|
            0 <= i < groups.len() && (#[trigger] groups[i]).0@ == modality
}

/// One more sample changes the readings of its own modality only.
proof fn lemma_next_sample(
    samples: Seq<EnvSample>,
    k: int,
    start_ns: u64,
    end_ns: u64,
    modality: Seq<char>,
)
    requires
        0 <= k < samples.len(),
    ensures
        readings_of(samples.take(k + 1), start_ns, end_ns, modality) == (if in_window(
            samples[k],
            start_ns,
            end_ns,
        ) && samples[k].modality@ == modality {
            readings_of(samples.take(k), start_ns, end_ns, modality).push(
                (samples[k].value_bits, samples[k].quality_bits),
            )
        } else {
            readings_of(samples.take(k), start_ns, end_ns, modality)
        }),
{
    assert(samples.take(k + 1).drop_last() =~= samples.take(k));
    assert(samples.take(k + 1).last() == samples[k]);
}

/// Group the samples of the window by modality.
pub fn group_by_modality(samples: &Vec<EnvSample>, start_ns: u64, end_ns: u64) -> (groups: Vec<
    (String, Vec<Reading>),
>)
    ensures
        grouped(groups@, samples@, start_ns, end_ns),
{
    let mut groups: Vec<(String, Vec<Reading>)> = Vec::new();
    let mut k: usize = 0;
    assert(samples@.take(0) =~= Seq::empty());
    while k < samples.len()
        invariant
            k <= samples.len(),
            grouped(groups@, samples@.take(k as int), start_ns, end_ns),
        decreases samples.len() - k,
    {
        let sample = &samples[k];
        proof {
            assert forall|modality: Seq<char>| #[trigger]
                readings_of(samples@.take(k + 1), start_ns, end_ns, modality) == (if in_window(
                *sample,
                start_ns,
                end_ns,
            ) && sample.modality@ == modality {
                readings_of(samples@.take(k as int), start_ns, end_ns, modality).push(
                    (sample.value_bits, sample.quality_bits),
                )
            } else {
                readings_of(samples@.take(k as int), start_ns, end_ns, modality)
            }) by {
                lemma_next_sample(samples@, k as int, start_ns, end_ns, modality);
            }
        }
        if start_ns <= sample.measured_ns && sample.measured_ns < end_ns {
            let reading: Reading = (sample.value_bits, sample.quality_bits);
            add_reading(
                &mut groups,
                &sample.modality,
                reading,
                Ghost(samples@.take(k as int)),
                Ghost(samples@.take(k + 1)),
                Ghost(start_ns),
                Ghost(end_ns),
            );
        }
        k += 1;
    }
    assert(samples@.take(k as int) =~= samples@);
    groups
}

/// Add one reading to the group of its modality, or start the group.
fn add_reading(
    groups: &mut Vec<(String, Vec<Reading>)>,
    modality: &String,
    reading: Reading,
    Ghost(before): Ghost<Seq<EnvSample>>,
    Ghost(after): Ghost<Seq<EnvSample>>,
    Ghost(start_ns): Ghost<u64>,
    Ghost(end_ns): Ghost<u64>,
)
    requires
        grouped(old(groups)@, before, start_ns, end_ns),
        forall|m: Seq<char>| #[trigger]
            readings_of(after, start_ns, end_ns, m) == (if m == modality@ {
                readings_of(before, start_ns, end_ns, m).push(reading)
            } else {
                readings_of(before, start_ns, end_ns, m)
            }),
    ensures
        grouped(final(groups)@, after, start_ns, end_ns),
{
    let ghost old_groups = groups@;
    let mut j: usize = 0;
    while j < groups.len() && relate(groups[j].0.as_str(), modality.as_str()) == Relation::Before
        invariant
            j <= groups.len(),
            groups@ == old_groups,
            forall|i: int| 0 <= i < j ==> lex_lt((#[trigger] groups@[i]).0@, modality@),
        decreases groups.len() - j,
    {
        j += 1;
    }
    if j < groups.len() && relate(groups[j].0.as_str(), modality.as_str()) == Relation::Same {
        groups[j].1.push(reading);
        proof {
            assert(groups@.len() == old_groups.len());
            assert(groups@[j as int].0 == old_groups[j as int].0);
            assert(groups@[j as int].1@ == old_groups[j as int].1@.push(reading));
            assert forall|i: int| 0 <= i < groups@.len() && i != j implies groups@[i]
                == old_groups[i] by {}
            assert forall|i: int| 0 <= i < groups@.len() implies {
                let group = #[trigger] groups@[i];
                group.1@ == readings_of(after, start_ns, end_ns, group.0@)
            } by {
                if i != j {
                    lemma_lex_irreflexive(modality@);
                    if i < j {
                        assert(lex_lt(old_groups[i].0@, old_groups[j as int].0@));
                    } else {
                        assert(lex_lt(old_groups[j as int].0@, old_groups[i].0@));
                    }
                    assert(old_groups[i].0@ != modality@);
                }
            }
            assert forall|m: Seq<char>|
                (#[trigger] readings_of(after, start_ns, end_ns, m)).len() > 0 implies exists|
                i: int,
            | 0 <= i < groups@.len() && (#[trigger] groups@[i]).0@ == m by {
                if m == modality@ {
                    assert(groups@[j as int].0@ == m);
                } else {
                    assert(readings_of(before, start_ns, end_ns, m).len() > 0);
                    let i = choose|i: int|
                        0 <= i < old_groups.len() && (#[trigger] old_groups[i]).0@ == m;
                    assert(groups@[i].0@ == m);
                }
            }
        }
    } else {
        proof {
            assert(j < groups@.len() ==> lex_lt(modality@, groups@[j as int].0@));
            if readings_of(before, start_ns, end_ns, modality@).len() > 0 {
                let i = choose|i: int|
                    0 <= i < old_groups.len() && (#[trigger] old_groups[i]).0@ == modality@;
                lemma_lex_irreflexive(modality@);
                if i > j {
                    assert(lex_lt(old_groups[j as int].0@, old_groups[i].0@));
                    lemma_lex_transitive(modality@, old_groups[j as int].0@, old_groups[i].0@);
                }
            }
            assert(readings_of(before, start_ns, end_ns, modality@) =~= Seq::empty());
        }
        let mut readings: Vec<Reading> = Vec::new();
        readings.push(reading);
        groups.insert(j, (modality.clone(), readings));
        proof {
            let entry = groups@[j as int];
            assert(entry.0@ == modality@);
            assert(entry.1@ =~= Seq::<Reading>::empty().push(reading));
            assert forall|i: int| 0 <= i < j implies groups@[i] == old_groups[i] by {}
            assert forall|i: int| j < i < groups@.len() implies groups@[i] == old_groups[i
                - 1] by {}
            assert forall|a: int, b: int| 0 <= a < b < groups@.len() implies lex_lt(
                (#[trigger] groups@[a]).0@,
                (#[trigger] groups@[b]).0@,
            ) by {
                if b < j {
                    assert(groups@[a] == old_groups[a] && groups@[b] == old_groups[b]);
                } else if b == j {
                    assert(groups@[a] == old_groups[a]);
                } else if a < j {
                    assert(groups@[a] == old_groups[a] && groups@[b] == old_groups[b - 1]);
                } else if a == j {
                    assert(groups@[b] == old_groups[b - 1]);
                    if b - 1 > j {
                        assert(lex_lt(old_groups[j as int].0@, old_groups[b - 1].0@));
                        lemma_lex_transitive(
                            modality@,
                            old_groups[j as int].0@,
                            old_groups[b - 1].0@,
                        );
                    }
                } else {
                    assert(groups@[a] == old_groups[a - 1] && groups@[b] == old_groups[b - 1]);
                }
            }
            assert forall|i: int| 0 <= i < groups@.len() implies {
                let group = #[trigger] groups@[i];
                group.1@ == readings_of(after, start_ns, end_ns, group.0@) && group.1@.len() > 0
            } by {
                if i != j {
                    let o = if i < j {
                        i
                    } else {
                        i - 1
                    };
                    assert(groups@[i] == old_groups[o]);
                    lemma_lex_irreflexive(modality@);
                    if i < j {
                        assert(lex_lt(groups@[i].0@, groups@[j as int].0@));
                    } else {
                        assert(lex_lt(groups@[j as int].0@, groups@[i].0@));
                    }
                    assert(groups@[i].0@ != modality@);
                }
            }
            assert forall|m: Seq<char>|
                (#[trigger] readings_of(after, start_ns, end_ns, m)).len() > 0 implies exists|
                i: int,
            | 0 <= i < groups@.len() && (#[trigger] groups@[i]).0@ == m by {
                if m == modality@ {
                    assert(groups@[j as int].0@ == m);
                } else {
                    assert(readings_of(before, start_ns, end_ns, m).len() > 0);
                    let i = choose|i: int|
                        0 <= i < old_groups.len() && (#[trigger] old_groups[i]).0@ == m;
                    if i < j {
                        assert(groups@[i].0@ == m);
                    } else {
                        assert(groups@[i + 1].0@ == m);
                    }
                }
            }
        }
    }
}

/// A window split in two has the readings of its parts: none is lost or comes
/// twice where they meet.
pub proof fn lemma_split_readings(
    samples: Seq<EnvSample>,
    start_ns: u64,
    middle_ns: u64,
    end_ns: u64,
    modality: Seq<char>,
)
    requires
        start_ns <= middle_ns <= end_ns,
    ensures
        readings_of(samples, start_ns, end_ns, modality).to_multiset() == readings_of(
            samples,
            start_ns,
            middle_ns,
            modality,
        ).to_multiset().add(readings_of(samples, middle_ns, end_ns, modality).to_multiset()),
        readings_of(samples, start_ns, end_ns, modality).len() == readings_of(
            samples,
            start_ns,
            middle_ns,
            modality,
        ).len() + readings_of(samples, middle_ns, end_ns, modality).len(),
    decreases samples.len(),
{
    let whole = readings_of(samples, start_ns, end_ns, modality);
    let left = readings_of(samples, start_ns, middle_ns, modality);
    let right = readings_of(samples, middle_ns, end_ns, modality);
    broadcast use vstd::seq_lib::group_to_multiset_ensures;

    if samples.len() == 0 {
        assert(whole.to_multiset() =~= left.to_multiset().add(right.to_multiset()));
    } else {
        lemma_split_readings(samples.drop_last(), start_ns, middle_ns, end_ns, modality);
        assert(whole.to_multiset() =~= left.to_multiset().add(right.to_multiset()));
    }
}

/// An empty window has no readings.
pub proof fn lemma_empty_window(samples: Seq<EnvSample>, at_ns: u64, modality: Seq<char>)
    ensures
        readings_of(samples, at_ns, at_ns, modality) == Seq::<Reading>::empty(),
    decreases samples.len(),
{
    if samples.len() > 0 {
        lemma_empty_window(samples.drop_last(), at_ns, modality);
    }
}

/// How many samples were measured in the window.
pub open spec fn window_count(samples: Seq<EnvSample>, start_ns: u64, end_ns: u64) -> nat
    decreases samples.len(),
{
    if samples.len() == 0 {
        0
    } else {
        window_count(samples.drop_last(), start_ns, end_ns) + if in_window(
            samples.last(),
            start_ns,
            end_ns,
        ) {
            1nat
        } else {
            0nat
        }
    }
}

/// How many readings the named modalities have.
pub open spec fn readings_count(
    names: Seq<Seq<char>>,
    samples: Seq<EnvSample>,
    start_ns: u64,
    end_ns: u64,
) -> nat
    decreases names.len(),
{
    if names.len() == 0 {
        0
    } else {
        readings_count(names.drop_last(), samples, start_ns, end_ns) + readings_of(
            samples,
            start_ns,
            end_ns,
            names.last(),
        ).len()
    }
}

/// One more sample counts once, where its modality is among the names.
proof fn lemma_readings_count_step(
    names: Seq<Seq<char>>,
    samples: Seq<EnvSample>,
    start_ns: u64,
    end_ns: u64,
)
    requires
        names.no_duplicates(),
        samples.len() > 0,
    ensures
        readings_count(names, samples, start_ns, end_ns) == readings_count(
            names,
            samples.drop_last(),
            start_ns,
            end_ns,
        ) + if in_window(samples.last(), start_ns, end_ns) && names.contains(
            samples.last().modality@,
        ) {
            1nat
        } else {
            0nat
        },
    decreases names.len(),
{
    if names.len() > 0 {
        let n = names.len() - 1;
        let m = samples.last().modality@;
        let fewer = names.drop_last();
        assert forall|i: int, j: int|
            0 <= i < fewer.len() && 0 <= j < fewer.len() && i != j implies fewer[i] != fewer[j] by {
            assert(names[i] != names[j]);
        }
        lemma_readings_count_step(fewer, samples, start_ns, end_ns);
        if fewer.contains(m) {
            let i = choose|i: int| 0 <= i < fewer.len() && fewer[i] == m;
            assert(names[i] == m);
            assert(names[i] != names[n]);
        } else if names.contains(m) {
            let i = choose|i: int| 0 <= i < names.len() && names[i] == m;
            if i < n {
                assert(fewer[i] == m);
            }
            assert(names.last() == m);
        } else {
            assert(names[n] != m);
        }
    }
}

/// Where the names are all modalities of the window, each once, their
/// readings are as many as the samples of the window.
pub proof fn lemma_readings_count(
    names: Seq<Seq<char>>,
    samples: Seq<EnvSample>,
    start_ns: u64,
    end_ns: u64,
)
    requires
        names.no_duplicates(),
        forall|i: int|
            0 <= i < samples.len() && in_window(#[trigger] samples[i], start_ns, end_ns)
                ==> names.contains(samples[i].modality@),
    ensures
        readings_count(names, samples, start_ns, end_ns) == window_count(samples, start_ns, end_ns),
    decreases samples.len(),
{
    if samples.len() > 0 {
        let fewer = samples.drop_last();
        assert forall|i: int|
            0 <= i < fewer.len() && in_window(
                #[trigger] fewer[i],
                start_ns,
                end_ns,
            ) implies names.contains(fewer[i].modality@) by {
            assert(fewer[i] == samples[i]);
        }
        lemma_readings_count(names, fewer, start_ns, end_ns);
        lemma_readings_count_step(names, samples, start_ns, end_ns);
        assert(samples[samples.len() - 1] == samples.last());
    } else {
        lemma_no_readings(names, samples, start_ns, end_ns);
    }
}

/// No samples, no readings.
proof fn lemma_no_readings(
    names: Seq<Seq<char>>,
    samples: Seq<EnvSample>,
    start_ns: u64,
    end_ns: u64,
)
    requires
        samples.len() == 0,
    ensures
        readings_count(names, samples, start_ns, end_ns) == 0,
    decreases names.len(),
{
    if names.len() > 0 {
        lemma_no_readings(names.drop_last(), samples, start_ns, end_ns);
    }
}

/// A sample of the window is among the readings of its modality.
pub proof fn lemma_sample_is_read(
    samples: Seq<EnvSample>,
    i: int,
    start_ns: u64,
    end_ns: u64,
)
    requires
        0 <= i < samples.len(),
        in_window(samples[i], start_ns, end_ns),
    ensures
        readings_of(samples, start_ns, end_ns, samples[i].modality@).len() > 0,
    decreases samples.len(),
{
    if i < samples.len() - 1 {
        lemma_sample_is_read(samples.drop_last(), i, start_ns, end_ns);
    }
}

} // verus!

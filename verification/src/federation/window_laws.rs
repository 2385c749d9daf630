//! What a summary says of its window, on the times of measurement, modalities
//! and values of the observations themselves.

use crate::federation::grouping::{grouped, readings_of, window_count, Reading};
use crate::federation::sig::{ed25519_public, ed25519_signature, hex_text};
use crate::federation::summary::{
    canonical_bytes, counts_total, law_window_counts_once, signed_by, stats_of_window, BiomeView,
    Figures, StatsView, SummaryView,
};
use crate::model::sample::EnvSample;
use crate::text::lex_lt;
use vstd::prelude::*;
use vstd::set_lib::set_int_range;

verus! {

/// The readings of a modality are those of the observations that were measured
/// in the window, picked by time and modality.
proof fn lemma_readings_are_picked(
    samples: Seq<EnvSample>,
    start_ns: u64,
    end_ns: u64,
    modality: Seq<char>,
)
    ensures
        readings_of(samples, start_ns, end_ns, modality) == samples.filter(
            |s: EnvSample| start_ns <= s.measured_ns < end_ns && s.modality@ == modality,
        ).map_values(|s: EnvSample| (s.value_bits, s.quality_bits)),
    decreases samples.len(),
{
    reveal(Seq::filter);
    let pick = |s: EnvSample| start_ns <= s.measured_ns < end_ns && s.modality@ == modality;
    let read = |s: EnvSample| (s.value_bits, s.quality_bits);
    if samples.len() > 0 {
        let fewer = samples.drop_last();
        lemma_readings_are_picked(fewer, start_ns, end_ns, modality);
        if pick(samples.last()) {
            assert(samples.filter(pick) == fewer.filter(pick).push(samples.last()));
            assert(samples.filter(pick).map_values(read) =~= fewer.filter(pick).map_values(
                read,
            ).push(read(samples.last())));
        } else {
            assert(samples.filter(pick) == fewer.filter(pick));
        }
    } else {
        assert(samples.filter(pick).map_values(read) =~= Seq::empty());
    }
}

/// The count of the window is the number of places at which an observation of
/// the window stands.
proof fn lemma_window_is_counted(samples: Seq<EnvSample>, start_ns: u64, end_ns: u64)
    ensures
        ({
            let places = set_int_range(0, samples.len() as int).filter(
                |i: int| start_ns <= samples[i].measured_ns < end_ns,
            );
            places.finite() && window_count(samples, start_ns, end_ns) == places.len()
        }),
        window_count(samples, start_ns, end_ns) == samples.filter(
            |s: EnvSample| start_ns <= s.measured_ns < end_ns,
        ).len(),
    decreases samples.len(),
{
    reveal(Seq::filter);
    let n = samples.len() as int;
    let places = set_int_range(0, n).filter(
        |i: int| start_ns <= samples[i].measured_ns < end_ns,
    );
    vstd::set_lib::lemma_int_range(0, n);
    if n > 0 {
        let fewer = samples.drop_last();
        let before = set_int_range(0, n - 1).filter(
            |i: int| start_ns <= fewer[i].measured_ns < end_ns,
        );
        lemma_window_is_counted(fewer, start_ns, end_ns);
        assert forall|i: int| #[trigger] before.contains(i) <==> places.contains(i) && i
            != n - 1 by {
            if 0 <= i < n - 1 {
                assert(fewer[i] == samples[i]);
            }
        }
        if start_ns <= samples[n - 1].measured_ns < end_ns {
            assert(places =~= before.insert(n - 1));
        } else {
            assert(places =~= before);
        }
    } else {
        assert(places =~= Set::empty());
    }
}

/// **The counts add up to the observations of the window**: their total is the
/// number of places `i` with `start_ns <= samples[i].measured_ns < end_ns`,
/// whatever was measured there.
pub proof fn law_counts_add_up_to_the_window<F: Fn(&Vec<Reading>) -> Figures>(
    stats: Seq<(Seq<char>, StatsView)>,
    samples: Seq<EnvSample>,
    start_ns: u64,
    end_ns: u64,
    fold: F,
)
    requires
        stats_of_window(stats, samples, start_ns, end_ns, fold),
    ensures
        counts_total(stats) == set_int_range(0, samples.len() as int).filter(
            |i: int| start_ns <= samples[i].measured_ns < end_ns,
        ).len(),
        counts_total(stats) == samples.filter(
            |s: EnvSample| start_ns <= s.measured_ns < end_ns,
        ).len(),
{
    law_window_counts_once(stats, samples, start_ns, end_ns, fold);
    lemma_window_is_counted(samples, start_ns, end_ns);
}

/// **Every observation of the window contributes its reading**, whatever its
/// value, to the entry of its modality: the figures of that entry are what
/// the fold gives for a list that holds the reading, and its count is the
/// length of that list.
pub proof fn law_observation_contributes<F: Fn(&Vec<Reading>) -> Figures>(
    stats: Seq<(Seq<char>, StatsView)>,
    samples: Seq<EnvSample>,
    start_ns: u64,
    end_ns: u64,
    fold: F,
    i: int,
)
    requires
        stats_of_window(stats, samples, start_ns, end_ns, fold),
        0 <= i < samples.len(),
        start_ns <= samples[i].measured_ns < end_ns,
    ensures
        exists|k: int, v: Vec<Reading>, figures: Figures|
            {
                &&& 0 <= k < stats.len()
                &&& (#[trigger] stats[k]).0 == samples[i].modality@
                &&& stats[k].1.count == v@.len()
                &&& v@.contains((samples[i].value_bits, samples[i].quality_bits))
                &&& #[trigger] call_ensures(fold, (&v,), figures)
                &&& stats[k].1.mean == figures.mean@
                &&& stats[k].1.min == figures.min@
                &&& stats[k].1.max == figures.max@
                &&& stats[k].1.mean_quality == figures.mean_quality@
            },
{
    let modality = samples[i].modality@;
    let pick = |s: EnvSample| start_ns <= s.measured_ns < end_ns && s.modality@ == modality;
    let read = |s: EnvSample| (s.value_bits, s.quality_bits);
    let picked = samples.filter(pick);
    lemma_readings_are_picked(samples, start_ns, end_ns, modality);
    samples.lemma_filter_contains(pick, i);
    let m = choose|m: int| 0 <= m < picked.len() && picked[m] == samples[i];
    let readings = readings_of(samples, start_ns, end_ns, modality);
    assert(readings[m] == read(samples[i]));
    let k = choose|k: int| 0 <= k < stats.len() && (#[trigger] stats[k]).0 == modality;
    let entry = stats[k].1;
    let (v, figures) = choose|v: Vec<Reading>, figures: Figures|
        {
            &&& v@ == readings
            &&& #[trigger] call_ensures(fold, (&v,), figures)
            &&& entry.mean == figures.mean@
            &&& entry.min == figures.min@
            &&& entry.max == figures.max@
            &&& entry.mean_quality == figures.mean_quality@
        };
    assert(stats[k].0 == modality && call_ensures(fold, (&v,), figures));
}

/// **An entry is made of its modality's observations in the window**, all of
/// them, in order of arrival, and of nothing else; a modality has an entry
/// exactly where there is such an observation, and the entries are in order of
/// the names.
pub proof fn law_entry_is_made_of<F: Fn(&Vec<Reading>) -> Figures>(
    stats: Seq<(Seq<char>, StatsView)>,
    samples: Seq<EnvSample>,
    start_ns: u64,
    end_ns: u64,
    fold: F,
    modality: Seq<char>,
)
    requires
        stats_of_window(stats, samples, start_ns, end_ns, fold),
    ensures
        ({
            let picked = samples.filter(
                |s: EnvSample| start_ns <= s.measured_ns < end_ns && s.modality@ == modality,
            );
            &&& picked.len() > 0 <==> exists|k: int|
                0 <= k < stats.len() && (#[trigger] stats[k]).0 == modality
            &&& forall|k: int|
                0 <= k < stats.len() && (#[trigger] stats[k]).0 == modality ==> {
                    &&& stats[k].1.count == picked.len()
                    &&& exists|v: Vec<Reading>, figures: Figures|
                        {
                            &&& v@ == picked.map_values(
                                |s: EnvSample| (s.value_bits, s.quality_bits),
                            )
                            &&& #[trigger] call_ensures(fold, (&v,), figures)
                            &&& stats[k].1.mean == figures.mean@
                            &&& stats[k].1.min == figures.min@
                            &&& stats[k].1.max == figures.max@
                            &&& stats[k].1.mean_quality == figures.mean_quality@
                        }
                }
        }),
        forall|i: int, j: int|
            0 <= i < j < stats.len() ==> lex_lt((#[trigger] stats[i]).0, (#[trigger] stats[j]).0),
{
    lemma_readings_are_picked(samples, start_ns, end_ns, modality);
    let readings = readings_of(samples, start_ns, end_ns, modality);
    if readings.len() > 0 {
        let k = choose|k: int| 0 <= k < stats.len() && (#[trigger] stats[k]).0 == modality;
        assert(stats[k].0 == modality);
    }
}

/// **The groups are made of their modality's observations in the window**, all
/// of them, in order of arrival, and of nothing else; a modality has a group
/// exactly where there is such an observation, and they are in order of the
/// names.
pub proof fn law_group_is_made_of(
    groups: Seq<(String, Vec<Reading>)>,
    samples: Seq<EnvSample>,
    start_ns: u64,
    end_ns: u64,
    modality: Seq<char>,
)
    requires
        grouped(groups, samples, start_ns, end_ns),
    ensures
        ({
            let picked = samples.filter(
                |s: EnvSample| start_ns <= s.measured_ns < end_ns && s.modality@ == modality,
            );
            &&& picked.len() > 0 <==> exists|k: int|
                0 <= k < groups.len() && (#[trigger] groups[k]).0@ == modality
            &&& forall|k: int|
                0 <= k < groups.len() && (#[trigger] groups[k]).0@ == modality ==> groups[k].1@
                    == picked.map_values(|s: EnvSample| (s.value_bits, s.quality_bits))
        }),
        forall|i: int, j: int|
            0 <= i < j < groups.len() ==> lex_lt(
                (#[trigger] groups[i]).0@,
                (#[trigger] groups[j]).0@,
            ),
{
    lemma_readings_are_picked(samples, start_ns, end_ns, modality);
    let readings = readings_of(samples, start_ns, end_ns, modality);
    if readings.len() > 0 {
        let k = choose|k: int| 0 <= k < groups.len() && (#[trigger] groups[k]).0@ == modality;
        assert(groups[k].0@ == modality);
    }
}

/// As many readings come of observations at the same times and of the same
/// modalities.
proof fn lemma_same_times_same_count(
    a: Seq<EnvSample>,
    b: Seq<EnvSample>,
    start_ns: u64,
    end_ns: u64,
    modality: Seq<char>,
)
    requires
        a.len() == b.len(),
        forall|i: int|
            0 <= i < a.len() ==> (#[trigger] a[i]).measured_ns == b[i].measured_ns
                && a[i].modality@ == b[i].modality@,
    ensures
        readings_of(a, start_ns, end_ns, modality).len() == readings_of(
            b,
            start_ns,
            end_ns,
            modality,
        ).len(),
    decreases a.len(),
{
    if a.len() > 0 {
        let n = a.len() - 1;
        assert(a[n].measured_ns == b[n].measured_ns && a[n].modality@ == b[n].modality@);
        assert forall|i: int| 0 <= i < n implies (#[trigger] a.drop_last()[i]).measured_ns
            == b.drop_last()[i].measured_ns && a.drop_last()[i].modality@
            == b.drop_last()[i].modality@ by {
            assert(a[i].measured_ns == b[i].measured_ns);
        }
        lemma_same_times_same_count(a.drop_last(), b.drop_last(), start_ns, end_ns, modality);
    }
}

/// **Time alone decides what contributes.** Observations at the same times and
/// of the same modalities give the same entries with the same counts, whatever
/// their values, quality, nodes and sequence numbers.
pub proof fn law_time_alone_decides<F: Fn(&Vec<Reading>) -> Figures>(
    stats_a: Seq<(Seq<char>, StatsView)>,
    stats_b: Seq<(Seq<char>, StatsView)>,
    a: Seq<EnvSample>,
    b: Seq<EnvSample>,
    start_ns: u64,
    end_ns: u64,
    fold: F,
    k: int,
)
    requires
        a.len() == b.len(),
        forall|i: int|
            0 <= i < a.len() ==> (#[trigger] a[i]).measured_ns == b[i].measured_ns
                && a[i].modality@ == b[i].modality@,
        stats_of_window(stats_a, a, start_ns, end_ns, fold),
        stats_of_window(stats_b, b, start_ns, end_ns, fold),
        0 <= k < stats_a.len(),
    ensures
        exists|m: int|
            0 <= m < stats_b.len() && (#[trigger] stats_b[m]).0 == stats_a[k].0
                && stats_b[m].1.count == stats_a[k].1.count,
{
    let modality = stats_a[k].0;
    lemma_same_times_same_count(a, b, start_ns, end_ns, modality);
    assert(readings_of(a, start_ns, end_ns, modality).len() > 0);
    assert(readings_of(b, start_ns, end_ns, modality).len() > 0);
    let m = choose|m: int| 0 <= m < stats_b.len() && (#[trigger] stats_b[m]).0 == modality;
    assert(stats_b[m].0 == stats_a[k].0);
}

/// The summary is that of the biome for the window: it names the biome and the
/// window that was asked for, has the statistics of the biome's observations
/// in it, and is signed over its own bytes with the biome's key.
pub open spec fn summarizes<F: Fn(&Vec<Reading>) -> Figures>(
    biome: BiomeView,
    start_ns: u64,
    end_ns: u64,
    fold: F,
    summary: SummaryView,
) -> bool {
    &&& summary.spec_version == biome.spec_version
    &&& summary.biome_id == biome.biome_id
    &&& summary.window_start_ns == start_ns
    &&& summary.window_end_ns == end_ns
    &&& stats_of_window(summary.stats, biome.observations, start_ns, end_ns, fold)
    &&& summary.signature_hex == Some(
        hex_text(ed25519_signature(biome.seed, canonical_bytes(summary))),
    )
    &&& summary.signer_pubkey_hex == Some(hex_text(ed25519_public(biome.seed)))
}

/// **A summary tells of the window that it names**: the total of its counts is
/// the number of the biome's observations measured from the start that it
/// names, up to but not including the end that it names.
pub proof fn law_summary_tells_of_its_window<F: Fn(&Vec<Reading>) -> Figures>(
    biome: BiomeView,
    start_ns: u64,
    end_ns: u64,
    fold: F,
    summary: SummaryView,
)
    requires
        summarizes(biome, start_ns, end_ns, fold, summary),
    ensures
        counts_total(summary.stats) == biome.observations.filter(
            |s: EnvSample| summary.window_start_ns <= s.measured_ns < summary.window_end_ns,
        ).len(),
        summary.window_start_ns == start_ns,
        summary.window_end_ns == end_ns,
        summary.biome_id == biome.biome_id,
        summary.spec_version == biome.spec_version,
        summary.signer_pubkey_hex == Some(hex_text(ed25519_public(biome.seed))),
{
    law_counts_add_up_to_the_window(
        summary.stats,
        biome.observations,
        start_ns,
        end_ns,
        fold,
    );
}

/// **Signing adds a signature and changes nothing else**, not even the bytes
/// that are signed; the signature is over those bytes and by the key that is
/// named.
pub proof fn law_signing_adds_a_signature(summary: SummaryView, seed: Seq<u8>)
    ensures
        ({
            let signed = signed_by(summary, seed);
            &&& signed.spec_version == summary.spec_version
            &&& signed.biome_id == summary.biome_id
            &&& signed.window_start_ns == summary.window_start_ns
            &&& signed.window_end_ns == summary.window_end_ns
            &&& signed.stats == summary.stats
            &&& canonical_bytes(signed) == canonical_bytes(summary)
            &&& signed.signature_hex == Some(
                hex_text(ed25519_signature(seed, canonical_bytes(summary))),
            )
            &&& signed.signer_pubkey_hex == Some(hex_text(ed25519_public(seed)))
        }),
{
}

} // verus!

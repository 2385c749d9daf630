//! Signed regional summaries: biomes federate statistics, never raw
//! measurements.

use crate::federation::grouping::{
    group_by_modality, in_window, lemma_empty_window, lemma_readings_count, lemma_sample_is_read,
    lemma_split_readings, readings_count, readings_of, window_count, Reading,
};
use crate::federation::json::{
    json_quoted, json_string, lacks, lemma_field_prefix, lemma_join, lemma_quoted_prefix,
    lemma_same_prefix,
};
use crate::federation::sig::{
    detached_valid, ed25519_public, ed25519_signature, hex_text, public_key_hex_of, sign_detached,
    verify_detached,
};
use crate::federation::window_laws::summarizes;
use crate::model::sample::EnvSample;
use crate::text::{decimal, decimal_text, lemma_decimal, lemma_lex_irreflexive, lex_lt};
use vstd::prelude::*;
use vstd::slice::slice_to_vec;
use vstd::string::*;
use vstd::utf8::{encode_utf8, encode_utf8_decode_utf8};

verus! {

/// Per-modality statistics over one summary window. The four figures are
/// double-precision numbers, held as the texts that JSON has for them.
#[derive(Debug, Clone, PartialEq, Eq)]
pub struct ModalityStats {
    /// Number of contributing observations.
    pub count: u64,
    /// Arithmetic mean of the calibrated values.
    pub mean: String,
    /// Minimum value in the window.
    pub min: String,
    /// Maximum value in the window.
    pub max: String,
    /// Mean quality score of the contributing observations.
    pub mean_quality: String,
}

/// A signed statistical summary of one biome over one time window: what
/// leaves the biome in place of raw data.
#[derive(Debug, Clone, PartialEq, Eq)]
pub struct RegionalSummary {
    /// Wire spec version.
    pub spec_version: String,
    /// Producing biome.
    pub biome_id: String,
    /// Window start (inclusive), ns since Unix epoch.
    pub window_start_ns: u64,
    /// Window end (exclusive), ns since Unix epoch.
    pub window_end_ns: u64,
    /// Per-modality statistics by name of the modality, in order of the names.
    pub stats: Vec<(String, ModalityStats)>,
    /// Hex ed25519 signature by the biome key, if signed.
    pub signature_hex: Option<String>,
    /// Hex signer public key, if signed.
    pub signer_pubkey_hex: Option<String>,
}

/// Statistics, as values.
#[verifier::ext_equal]
pub struct StatsView {
    pub count: u64,
    pub mean: Seq<char>,
    pub min: Seq<char>,
    pub max: Seq<char>,
    pub mean_quality: Seq<char>,
}

/// A summary, as values.
#[verifier::ext_equal]
pub struct SummaryView {
    pub spec_version: Seq<char>,
    pub biome_id: Seq<char>,
    pub window_start_ns: u64,
    pub window_end_ns: u64,
    pub stats: Seq<(Seq<char>, StatsView)>,
    pub signature_hex: Option<Seq<char>>,
    pub signer_pubkey_hex: Option<Seq<char>>,
}

/// A text that may be missing, as a value.
pub open spec fn option_text(s: Option<String>) -> Option<Seq<char>> {
    match s {
        Some(s) => Some(s@),
        None => None,
    }
}

impl View for ModalityStats {
    type V = StatsView;

    open spec fn view(&self) -> StatsView {
        StatsView {
            count: self.count,
            mean: self.mean@,
            min: self.min@,
            max: self.max@,
            mean_quality: self.mean_quality@,
        }
    }
}

impl View for RegionalSummary {
    type V = SummaryView;

    open spec fn view(&self) -> SummaryView {
        SummaryView {
            spec_version: self.spec_version@,
            biome_id: self.biome_id@,
            window_start_ns: self.window_start_ns,
            window_end_ns: self.window_end_ns,
            stats: self.stats@.map_values(|e: (String, ModalityStats)| (e.0@, e.1@)),
            signature_hex: option_text(self.signature_hex),
            signer_pubkey_hex: option_text(self.signer_pubkey_hex),
        }
    }
}

// ---------------------------------------------------------------------------
// Canonical bytes
// ---------------------------------------------------------------------------

/// One modality with its statistics, as compact JSON.
pub open spec fn entry_text(name: Seq<char>, s: StatsView) -> Seq<char> {
    json_quoted(name) + ":{\"count\":"@ + decimal(s.count as nat) + ",\"mean\":"@ + s.mean
        + ",\"min\":"@ + s.min + ",\"max\":"@ + s.max + ",\"mean_quality\":"@ + s.mean_quality
        + "}"@
}

/// The entries after the first one, each after its comma.
pub open spec fn more_entries(stats: Seq<(Seq<char>, StatsView)>) -> Seq<char>
    decreases stats.len(),
{
    if stats.len() == 0 {
        Seq::empty()
    } else {
        ","@ + entry_text(stats[0].0, stats[0].1) + more_entries(stats.skip(1))
    }
}

/// The entries between the braces of the map.
pub open spec fn entries_text(stats: Seq<(Seq<char>, StatsView)>) -> Seq<char> {
    if stats.len() == 0 {
        Seq::empty()
    } else {
        entry_text(stats[0].0, stats[0].1) + more_entries(stats.skip(1))
    }
}

/// The summary without its signature, as compact JSON with the fields in
/// their order.
pub open spec fn canonical_text(s: SummaryView) -> Seq<char> {
    "{\"spec_version\":"@ + json_quoted(s.spec_version) + ",\"biome_id\":"@ + json_quoted(
        s.biome_id,
    ) + ",\"window_start_ns\":"@ + decimal(s.window_start_ns as nat) + ",\"window_end_ns\":"@
        + decimal(s.window_end_ns as nat) + ",\"stats\":{"@ + entries_text(s.stats) + "}}"@
}

/// The bytes that are signed for a summary.
pub open spec fn canonical_bytes(s: SummaryView) -> Seq<u8> {
    encode_utf8(canonical_text(s))
}

/// Entries from left to right.
proof fn lemma_more_entries_push(stats: Seq<(Seq<char>, StatsView)>, e: (Seq<char>, StatsView))
    ensures
        more_entries(stats.push(e)) == more_entries(stats) + ","@ + entry_text(e.0, e.1),
    decreases stats.len(),
{
    let longer = stats.push(e);
    if stats.len() == 0 {
        assert(longer.skip(1) =~= Seq::empty());
        assert(more_entries(longer.skip(1)) =~= Seq::empty());
        assert(more_entries(longer) =~= ","@ + entry_text(e.0, e.1));
        assert(more_entries(stats) + ","@ + entry_text(e.0, e.1) =~= ","@ + entry_text(e.0, e.1));
    } else {
        assert(longer.skip(1) =~= stats.skip(1).push(e));
        lemma_more_entries_push(stats.skip(1), e);
        assert(more_entries(longer) =~= more_entries(stats) + ","@ + entry_text(e.0, e.1));
    }
}

/// One more entry in the map.
pub proof fn lemma_entries_push(stats: Seq<(Seq<char>, StatsView)>, e: (Seq<char>, StatsView))
    ensures
        entries_text(stats.push(e)) == (if stats.len() == 0 {
            entry_text(e.0, e.1)
        } else {
            entries_text(stats) + ","@ + entry_text(e.0, e.1)
        }),
{
    let longer = stats.push(e);
    if stats.len() == 0 {
        assert(longer.skip(1) =~= Seq::empty());
        assert(entries_text(longer) =~= entry_text(e.0, e.1));
    } else {
        assert(longer.skip(1) =~= stats.skip(1).push(e));
        lemma_more_entries_push(stats.skip(1), e);
        assert(entries_text(longer) =~= entries_text(stats) + ","@ + entry_text(e.0, e.1));
    }
}

fn push_entry(out: &mut String, name: &str, stats: &ModalityStats)
    ensures
        final(out)@ == old(out)@ + entry_text(name@, stats@),
{
    let ghost before = out@;
    out.append(json_string(name).as_str());
    out.append(":{\"count\":");
    out.append(decimal_text(stats.count).as_str());
    out.append(",\"mean\":");
    out.append(stats.mean.as_str());
    out.append(",\"min\":");
    out.append(stats.min.as_str());
    out.append(",\"max\":");
    out.append(stats.max.as_str());
    out.append(",\"mean_quality\":");
    out.append(stats.mean_quality.as_str());
    out.append("}");
    assert(out@ =~= before + entry_text(name@, stats@));
}

/// Canonical bytes signed for a summary: the summary with its signature
/// fields left out, as compact JSON.
pub fn canonical_summary_bytes(summary: &RegionalSummary) -> (bytes: Vec<u8>)
    ensures
        bytes@ == canonical_bytes(summary@),
{
    let mut out = String::new();
    out.append("{\"spec_version\":");
    out.append(json_string(summary.spec_version.as_str()).as_str());
    out.append(",\"biome_id\":");
    out.append(json_string(summary.biome_id.as_str()).as_str());
    out.append(",\"window_start_ns\":");
    out.append(decimal_text(summary.window_start_ns).as_str());
    out.append(",\"window_end_ns\":");
    out.append(decimal_text(summary.window_end_ns).as_str());
    out.append(",\"stats\":{");
    let ghost head = out@;
    let ghost stats = summary@.stats;
    let mut i: usize = 0;
    assert(stats.take(0) =~= Seq::empty());
    assert(out@ =~= head + entries_text(stats.take(0)));
    while i < summary.stats.len()
        invariant
            i <= summary.stats.len(),
            stats == summary@.stats,
            out@ == head + entries_text(stats.take(i as int)),
        decreases summary.stats.len() - i,
    {
        proof {
            let entry = summary.stats@[i as int];
            assert(stats[i as int] == (entry.0@, entry.1@));
            assert(stats.take(i + 1) =~= stats.take(i as int).push(stats[i as int]));
            lemma_entries_push(stats.take(i as int), stats[i as int]);
        }
        if i > 0 {
            out.append(",");
        }
        push_entry(&mut out, summary.stats[i].0.as_str(), &summary.stats[i].1);
        assert(out@ =~= head + entries_text(stats.take(i + 1)));
        i += 1;
    }
    assert(stats.take(i as int) =~= stats);
    out.append("}}");
    assert(out@ =~= canonical_text(summary@));
    slice_to_vec(out.as_str().as_bytes())
}

// ---------------------------------------------------------------------------
// Signing and verifying
// ---------------------------------------------------------------------------

/// Both signature fields are there, and valid over the canonical bytes.
pub open spec fn summary_valid(s: SummaryView) -> bool {
    match (s.signature_hex, s.signer_pubkey_hex) {
        (Some(sig_hex), Some(pk_hex)) => detached_valid(pk_hex, sig_hex, canonical_bytes(s)),
        _ => false,
    }
}

/// The summary as the key made from `seed` signs it.
pub open spec fn signed_by(s: SummaryView, seed: Seq<u8>) -> SummaryView {
    SummaryView {
        signature_hex: Some(hex_text(ed25519_signature(seed, canonical_bytes(s)))),
        signer_pubkey_hex: Some(hex_text(ed25519_public(seed))),
        ..s
    }
}

/// Verify the biome signature on a summary: `true` only when both signature
/// fields are present and verify over the canonical bytes.
pub fn verify_summary(summary: &RegionalSummary) -> (valid: bool)
    ensures
        valid == summary_valid(summary@),
{
    match (&summary.signature_hex, &summary.signer_pubkey_hex) {
        (Some(sig_hex), Some(pk_hex)) => {
            let bytes = canonical_summary_bytes(summary);
            verify_detached(pk_hex.as_str(), sig_hex.as_str(), bytes.as_slice())
        },
        _ => false,
    }
}

/// A biome as its signing key and its accepted observations, in order of
/// arrival.
pub struct Biome {
    spec_version: String,
    biome_id: String,
    seed: [u8; 32],
    observations: Vec<EnvSample>,
}

/// A biome, as values.
#[verifier::ext_equal]
pub struct BiomeView {
    pub spec_version: Seq<char>,
    pub biome_id: Seq<char>,
    pub seed: Seq<u8>,
    pub observations: Seq<EnvSample>,
}

impl View for Biome {
    type V = BiomeView;

    closed spec fn view(&self) -> BiomeView {
        BiomeView {
            spec_version: self.spec_version@,
            biome_id: self.biome_id@,
            seed: self.seed@,
            observations: self.observations@,
        }
    }
}

impl Biome {
    /// A biome with its wire spec version, its id, the seed of its signing
    /// key and the observations that it has accepted.
    pub fn new(
        spec_version: String,
        biome_id: String,
        seed: [u8; 32],
        observations: Vec<EnvSample>,
    ) -> (biome: Biome)
        ensures
            biome@ == (BiomeView {
                spec_version: spec_version@,
                biome_id: biome_id@,
                seed: seed@,
                observations: observations@,
            }),
    {
        Biome { spec_version, biome_id, seed, observations }
    }

    /// The accepted observations, in order of arrival.
    pub fn observations(&self) -> (observations: &Vec<EnvSample>)
        ensures
            observations@ == self@.observations,
    {
        &self.observations
    }

    /// Hex public key of the biome.
    pub fn public_key_hex(&self) -> (text: String)
        ensures
            text@ == hex_text(ed25519_public(self@.seed)),
    {
        public_key_hex_of(&self.seed)
    }

    /// Sign a summary in place with the biome key, over the canonical bytes.
    /// What is signed verifies.
    pub fn sign_summary(&self, summary: &mut RegionalSummary)
        ensures
            final(summary)@ == signed_by(old(summary)@, self@.seed),
            summary_valid(final(summary)@),
    {
        let ghost before = summary@;
        let bytes = canonical_summary_bytes(summary);
        let signature = sign_detached(&self.seed, bytes.as_slice());
        let public = public_key_hex_of(&self.seed);
        summary.signature_hex = Some(signature);
        summary.signer_pubkey_hex = Some(public);
        assert(summary@.stats =~= before.stats);
        assert(summary@ =~= signed_by(before, self@.seed));
        assert(canonical_bytes(summary@) == canonical_bytes(before));
    }
}

/// The figures that the readings of one modality come to.
#[derive(Debug, Clone, PartialEq, Eq)]
pub struct Figures {
    /// Arithmetic mean of the values.
    pub mean: String,
    /// Smallest value.
    pub min: String,
    /// Largest value.
    pub max: String,
    /// Arithmetic mean of the quality scores.
    pub mean_quality: String,
}

/// The statistics are the count of the readings and the figures that `fold`
/// gives for them.
pub open spec fn folded<F: Fn(&Vec<Reading>) -> Figures>(
    fold: F,
    readings: Seq<Reading>,
    stats: StatsView,
) -> bool {
    &&& stats.count == readings.len()
    &&& exists|v: Vec<Reading>, figures: Figures|
        {
            &&& v@ == readings
            &&& #[trigger] call_ensures(fold, (&v,), figures)
            &&& stats.mean == figures.mean@
            &&& stats.min == figures.min@
            &&& stats.max == figures.max@
            &&& stats.mean_quality == figures.mean_quality@
        }
}

/// The entries are in order of their names, none of which is there twice.
pub open spec fn ordered_by_name(stats: Seq<(Seq<char>, StatsView)>) -> bool {
    forall|i: int, j: int|
        0 <= i < j < stats.len() ==> lex_lt((#[trigger] stats[i]).0, (#[trigger] stats[j]).0)
}

/// The statistics are those of the modalities observed in the window, in
/// order of their names, each over its readings in order of arrival.
pub open spec fn stats_of_window<F: Fn(&Vec<Reading>) -> Figures>(
    stats: Seq<(Seq<char>, StatsView)>,
    samples: Seq<EnvSample>,
    start_ns: u64,
    end_ns: u64,
    fold: F,
) -> bool {
    &&& ordered_by_name(stats)
    &&& forall|i: int|
        0 <= i < stats.len() ==> {
            let entry = #[trigger] stats[i];
            let readings = readings_of(samples, start_ns, end_ns, entry.0);
            readings.len() > 0 && folded(fold, readings, entry.1)
        }
    &&& forall|modality: Seq<char>|
        (#[trigger] readings_of(samples, start_ns, end_ns, modality)).len() > 0 ==> exists|i: int|
            0 <= i < stats.len() && (#[trigger] stats[i]).0 == modality
}

impl Biome {
    /// Aggregate the accepted observations with `measured_ns` in
    /// `[window_start_ns, window_end_ns)` into a per-modality summary, signed
    /// with the biome key. `fold` computes the figures of one modality from
    /// its readings in order of arrival.
    pub fn summarize<F: Fn(&Vec<Reading>) -> Figures>(
        &self,
        window_start_ns: u64,
        window_end_ns: u64,
        fold: &F,
    ) -> (summary: RegionalSummary)
        requires
            forall|v: &Vec<Reading>| #[trigger] call_requires(*fold, (v,)),
        ensures
            exists|unsigned: SummaryView|
                {
                    &&& unsigned.spec_version == self@.spec_version
                    &&& unsigned.biome_id == self@.biome_id
                    &&& unsigned.window_start_ns == window_start_ns
                    &&& unsigned.window_end_ns == window_end_ns
                    &&& stats_of_window(
                        unsigned.stats,
                        self@.observations,
                        window_start_ns,
                        window_end_ns,
                        *fold,
                    )
                    &&& unsigned.signature_hex is None
                    &&& unsigned.signer_pubkey_hex is None
                    &&& summary@ == #[trigger] signed_by(unsigned, self@.seed)
                },
            summary_valid(summary@),
            summarizes(self@, window_start_ns, window_end_ns, *fold, summary@),
    {
        let groups = group_by_modality(&self.observations, window_start_ns, window_end_ns);
        let mut stats: Vec<(String, ModalityStats)> = Vec::new();
        let mut i: usize = 0;
        while i < groups.len()
            invariant
                i <= groups.len(),
                stats@.len() == i,
                forall|k: int|
                    0 <= k < i ==> {
                        let entry = #[trigger] stats@[k];
                        entry.0@ == groups@[k].0@ && folded(*fold, groups@[k].1@, entry.1@)
                    },
                forall|v: &Vec<Reading>| #[trigger] call_requires(*fold, (v,)),
            decreases groups.len() - i,
        {
            let figures = fold(&groups[i].1);
            let ghost given = figures;
            let count = groups[i].1.len() as u64;
            let own = ModalityStats {
                count,
                mean: figures.mean,
                min: figures.min,
                max: figures.max,
                mean_quality: figures.mean_quality,
            };
            assert(folded(*fold, groups@[i as int].1@, own@)) by {
                assert(call_ensures(*fold, (&groups@[i as int].1,), given));
            }
            stats.push((groups[i].0.clone(), own));
            i += 1;
        }
        let mut summary = RegionalSummary {
            spec_version: self.spec_version.clone(),
            biome_id: self.biome_id.clone(),
            window_start_ns,
            window_end_ns,
            stats,
            signature_hex: None,
            signer_pubkey_hex: None,
        };
        proof {
            let v = summary@.stats;
            assert forall|k: int| 0 <= k < v.len() implies (#[trigger] v[k]).0 == groups@[k].0@
                && folded(*fold, groups@[k].1@, v[k].1) by {
                let entry = stats@[k];
                assert(v[k] == (entry.0@, entry.1@));
            }
            assert forall|modality: Seq<char>|
                (#[trigger] readings_of(
                    self@.observations,
                    window_start_ns,
                    window_end_ns,
                    modality,
                )).len() > 0 implies exists|k: int|
                0 <= k < v.len() && (#[trigger] v[k]).0 == modality by {
                let k = choose|k: int|
                    0 <= k < groups@.len() && (#[trigger] groups@[k]).0@ == modality;
                assert(v[k].0 == modality);
            }
            assert(stats_of_window(
                v,
                self@.observations,
                window_start_ns,
                window_end_ns,
                *fold,
            ));
        }
        self.sign_summary(&mut summary);
        summary
    }
}

/// The counts of all entries, summed.
pub open spec fn counts_total(stats: Seq<(Seq<char>, StatsView)>) -> nat
    decreases stats.len(),
{
    if stats.len() == 0 {
        0
    } else {
        counts_total(stats.drop_last()) + stats.last().1.count as nat
    }
}

/// The names of the entries.
pub open spec fn entry_names(stats: Seq<(Seq<char>, StatsView)>) -> Seq<Seq<char>> {
    stats.map_values(|e: (Seq<char>, StatsView)| e.0)
}

/// Counts add up to the readings.
proof fn lemma_counts_total(
    stats: Seq<(Seq<char>, StatsView)>,
    samples: Seq<EnvSample>,
    start_ns: u64,
    end_ns: u64,
)
    requires
        forall|i: int|
            0 <= i < stats.len() ==> (#[trigger] stats[i]).1.count == readings_of(
                samples,
                start_ns,
                end_ns,
                stats[i].0,
            ).len(),
    ensures
        counts_total(stats) == readings_count(entry_names(stats), samples, start_ns, end_ns),
    decreases stats.len(),
{
    if stats.len() > 0 {
        let fewer = stats.drop_last();
        assert(entry_names(stats).drop_last() =~= entry_names(fewer));
        assert forall|i: int| 0 <= i < fewer.len() implies (#[trigger] fewer[i]).1.count
            == readings_of(samples, start_ns, end_ns, fewer[i].0).len() by {
            assert(fewer[i] == stats[i]);
        }
        lemma_counts_total(fewer, samples, start_ns, end_ns);
        assert(stats[stats.len() - 1] == stats.last());
    }
}

/// **Every observation of the window counts once**, and no other does.
pub proof fn law_window_counts_once<F: Fn(&Vec<Reading>) -> Figures>(
    stats: Seq<(Seq<char>, StatsView)>,
    samples: Seq<EnvSample>,
    start_ns: u64,
    end_ns: u64,
    fold: F,
)
    requires
        stats_of_window(stats, samples, start_ns, end_ns, fold),
    ensures
        counts_total(stats) == window_count(samples, start_ns, end_ns),
{
    let names = entry_names(stats);
    lemma_counts_total(stats, samples, start_ns, end_ns);
    assert forall|i: int, j: int|
        0 <= i < names.len() && 0 <= j < names.len() && i != j implies names[i] != names[j] by {
        assert(names[i] == stats[i].0 && names[j] == stats[j].0);
        lemma_lex_irreflexive(names[i]);
        if i < j {
            assert(lex_lt(stats[i].0, stats[j].0));
        } else {
            assert(lex_lt(stats[j].0, stats[i].0));
        }
    }
    assert forall|i: int|
        0 <= i < samples.len() && in_window(
            #[trigger] samples[i],
            start_ns,
            end_ns,
        ) implies names.contains(samples[i].modality@) by {
        lemma_sample_is_read(samples, i, start_ns, end_ns);
        let k = choose|k: int|
            0 <= k < stats.len() && (#[trigger] stats[k]).0 == samples[i].modality@;
        assert(names[k] == samples[i].modality@);
    }
    lemma_readings_count(names, samples, start_ns, end_ns);
}

/// The count of the modality among the entries, zero where it has no entry.
pub open spec fn count_of(stats: Seq<(Seq<char>, StatsView)>, modality: Seq<char>) -> nat
    decreases stats.len(),
{
    if stats.len() == 0 {
        0
    } else if stats.last().0 == modality {
        stats.last().1.count as nat
    } else {
        count_of(stats.drop_last(), modality)
    }
}

/// The count of a modality is that of its readings, and it has an entry where
/// there are any.
proof fn lemma_count_of<F: Fn(&Vec<Reading>) -> Figures>(
    stats: Seq<(Seq<char>, StatsView)>,
    samples: Seq<EnvSample>,
    start_ns: u64,
    end_ns: u64,
    fold: F,
    modality: Seq<char>,
)
    requires
        stats_of_window(stats, samples, start_ns, end_ns, fold),
    ensures
        count_of(stats, modality) == readings_of(samples, start_ns, end_ns, modality).len(),
        entry_names(stats).contains(modality) <==> readings_of(
            samples,
            start_ns,
            end_ns,
            modality,
        ).len() > 0,
{
    let readings = readings_of(samples, start_ns, end_ns, modality);
    lemma_count_in(stats, samples, start_ns, end_ns, modality);
    if readings.len() > 0 {
        let i = choose|i: int| 0 <= i < stats.len() && (#[trigger] stats[i]).0 == modality;
        assert(entry_names(stats)[i] == modality);
    }
    if entry_names(stats).contains(modality) {
        let i = choose|i: int|
            0 <= i < entry_names(stats).len() && entry_names(stats)[i] == modality;
        assert(stats[i].0 == modality);
    }
}

/// Where every entry counts its readings, the count of a modality with an entry
/// is that of its readings.
proof fn lemma_count_in(
    stats: Seq<(Seq<char>, StatsView)>,
    samples: Seq<EnvSample>,
    start_ns: u64,
    end_ns: u64,
    modality: Seq<char>,
)
    requires
        forall|i: int|
            0 <= i < stats.len() ==> (#[trigger] stats[i]).1.count == readings_of(
                samples,
                start_ns,
                end_ns,
                stats[i].0,
            ).len(),
    ensures
        count_of(stats, modality) == (if entry_names(stats).contains(modality) {
            readings_of(samples, start_ns, end_ns, modality).len()
        } else {
            0
        }),
    decreases stats.len(),
{
    let names = entry_names(stats);
    if stats.len() > 0 {
        let n = stats.len() - 1;
        let fewer = stats.drop_last();
        assert(entry_names(fewer) =~= names.drop_last());
        assert forall|i: int| 0 <= i < fewer.len() implies (#[trigger] fewer[i]).1.count
            == readings_of(samples, start_ns, end_ns, fewer[i].0).len() by {
            assert(fewer[i] == stats[i]);
        }
        lemma_count_in(fewer, samples, start_ns, end_ns, modality);
        assert(stats[n] == stats.last());
        assert(names[n] == stats[n].0);
        if names.contains(modality) && names[n] != modality {
            let i = choose|i: int| 0 <= i < names.len() && names[i] == modality;
            assert(names.drop_last()[i] == modality);
        }
        if names.drop_last().contains(modality) {
            let i = choose|i: int| 0 <= i < n && names.drop_last()[i] == modality;
            assert(names[i] == modality);
        }
    }
}

/// **A window that is split adds up.** The modalities of the whole are those of
/// its two parts, the counts of the parts add up to those of the whole, and
/// the readings that the figures of the whole are made of are those of the
/// parts together: none is lost or comes twice where the parts meet.
pub proof fn law_split_window_adds_up<F: Fn(&Vec<Reading>) -> Figures>(
    whole: Seq<(Seq<char>, StatsView)>,
    left: Seq<(Seq<char>, StatsView)>,
    right: Seq<(Seq<char>, StatsView)>,
    samples: Seq<EnvSample>,
    start_ns: u64,
    middle_ns: u64,
    end_ns: u64,
    fold: F,
    modality: Seq<char>,
)
    requires
        start_ns <= middle_ns <= end_ns,
        stats_of_window(whole, samples, start_ns, end_ns, fold),
        stats_of_window(left, samples, start_ns, middle_ns, fold),
        stats_of_window(right, samples, middle_ns, end_ns, fold),
    ensures
        entry_names(whole).contains(modality) <==> (entry_names(left).contains(modality)
            || entry_names(right).contains(modality)),
        count_of(whole, modality) == count_of(left, modality) + count_of(right, modality),
        readings_of(samples, start_ns, end_ns, modality).to_multiset() == readings_of(
            samples,
            start_ns,
            middle_ns,
            modality,
        ).to_multiset().add(readings_of(samples, middle_ns, end_ns, modality).to_multiset()),
{
    lemma_split_readings(samples, start_ns, middle_ns, end_ns, modality);
    lemma_count_of(whole, samples, start_ns, end_ns, fold, modality);
    lemma_count_of(left, samples, start_ns, middle_ns, fold, modality);
    lemma_count_of(right, samples, middle_ns, end_ns, fold, modality);
}

/// **An empty window has no entries.**
pub proof fn law_empty_window_has_no_entries<F: Fn(&Vec<Reading>) -> Figures>(
    stats: Seq<(Seq<char>, StatsView)>,
    samples: Seq<EnvSample>,
    at_ns: u64,
    fold: F,
)
    requires
        stats_of_window(stats, samples, at_ns, at_ns, fold),
    ensures
        stats == Seq::<(Seq<char>, StatsView)>::empty(),
{
    if stats.len() > 0 {
        lemma_empty_window(samples, at_ns, stats[0].0);
    }
    assert(stats =~= Seq::empty());
}

// ---------------------------------------------------------------------------
// What the signed bytes say
// ---------------------------------------------------------------------------

/// The figures hold neither of the characters that end a field: no JSON number
/// does.
pub open spec fn plain_figures(s: StatsView) -> bool {
    &&& lacks(s.mean, ',')
    &&& lacks(s.min, ',')
    &&& lacks(s.max, ',')
    &&& lacks(s.mean_quality, '}')
}

/// All figures of the summary are plain.
pub open spec fn plain_summary(s: SummaryView) -> bool {
    forall|i: int| 0 <= i < s.stats.len() ==> plain_figures((#[trigger] s.stats[i]).1)
}

/// The summaries say the same, whoever signed them.
pub open spec fn same_content(a: SummaryView, b: SummaryView) -> bool {
    &&& a.spec_version == b.spec_version
    &&& a.biome_id == b.biome_id
    &&& a.window_start_ns == b.window_start_ns
    &&& a.window_end_ns == b.window_end_ns
    &&& a.stats == b.stats
}

/// Numerals are alike where what ends them is, and what follows.
pub proof fn lemma_number_prefix(m: nat, n: nat, end: Seq<char>, x: Seq<char>, y: Seq<char>)
    requires
        end.len() > 0,
        end[0] == ',',
        decimal(m) + (end + x) == decimal(n) + (end + y),
    ensures
        m == n,
        x == y,
{
    lemma_decimal(m);
    lemma_decimal(n);
    lemma_field_prefix(decimal(m), decimal(n), end, x, y);
}

/// What follows the name in an entry and after it.
spec fn after_name(s: StatsView, x: Seq<char>) -> Seq<char> {
    ":{\"count\":"@ + (decimal(s.count as nat) + (",\"mean\":"@ + (s.mean + (",\"min\":"@ + (s.min
        + (",\"max\":"@ + (s.max + (",\"mean_quality\":"@ + (s.mean_quality + ("}"@ + x))))))))))
}

/// An entry and what follows it, from its beginning.
proof fn lemma_entry_unfold(name: Seq<char>, s: StatsView, x: Seq<char>)
    ensures
        entry_text(name, s) + x == json_quoted(name) + after_name(s, x),
{
    let t0 = json_quoted(name);
    let t1 = t0 + ":{\"count\":"@;
    let t2 = t1 + decimal(s.count as nat);
    let t3 = t2 + ",\"mean\":"@;
    let t4 = t3 + s.mean;
    let t5 = t4 + ",\"min\":"@;
    let t6 = t5 + s.min;
    let t7 = t6 + ",\"max\":"@;
    let t8 = t7 + s.max;
    let t9 = t8 + ",\"mean_quality\":"@;
    let t10 = t9 + s.mean_quality;
    let r10 = "}"@ + x;
    let r9 = s.mean_quality + r10;
    let r8 = ",\"mean_quality\":"@ + r9;
    let r7 = s.max + r8;
    let r6 = ",\"max\":"@ + r7;
    let r5 = s.min + r6;
    let r4 = ",\"min\":"@ + r5;
    let r3 = s.mean + r4;
    let r2 = ",\"mean\":"@ + r3;
    let r1 = decimal(s.count as nat) + r2;
    lemma_join(t10, "}"@, x);
    lemma_join(t9, s.mean_quality, r10);
    lemma_join(t8, ",\"mean_quality\":"@, r9);
    lemma_join(t7, s.max, r8);
    lemma_join(t6, ",\"max\":"@, r7);
    lemma_join(t5, s.min, r6);
    lemma_join(t4, ",\"min\":"@, r5);
    lemma_join(t3, s.mean, r4);
    lemma_join(t2, ",\"mean\":"@, r3);
    lemma_join(t1, decimal(s.count as nat), r2);
    lemma_join(t0, ":{\"count\":"@, r1);
}

/// The separators of an entry begin with the character that ends a field.
proof fn lemma_entry_separators()
    ensures
        ",\"mean\":"@.len() > 0 && ",\"mean\":"@[0] == ',',
        ",\"min\":"@.len() > 0 && ",\"min\":"@[0] == ',',
        ",\"max\":"@.len() > 0 && ",\"max\":"@[0] == ',',
        ",\"mean_quality\":"@.len() > 0 && ",\"mean_quality\":"@[0] == ',',
        "}"@.len() > 0 && "}"@[0] == '}',
{
    reveal_strlit(",\"mean\":");
    reveal_strlit(",\"min\":");
    reveal_strlit(",\"max\":");
    reveal_strlit(",\"mean_quality\":");
    reveal_strlit("}");
}

/// Entries that go on alike are alike.
proof fn lemma_entry_prefix(
    name_a: Seq<char>,
    a: StatsView,
    name_b: Seq<char>,
    b: StatsView,
    x: Seq<char>,
    y: Seq<char>,
)
    requires
        plain_figures(a),
        plain_figures(b),
        entry_text(name_a, a) + x == entry_text(name_b, b) + y,
    ensures
        name_a == name_b,
        a == b,
        x == y,
{
    lemma_entry_separators();
    lemma_entry_unfold(name_a, a, x);
    lemma_entry_unfold(name_b, b, y);
    let a5 = a.mean_quality + ("}"@ + x);
    let b5 = b.mean_quality + ("}"@ + y);
    let a4 = a.max + (",\"mean_quality\":"@ + a5);
    let b4 = b.max + (",\"mean_quality\":"@ + b5);
    let a3 = a.min + (",\"max\":"@ + a4);
    let b3 = b.min + (",\"max\":"@ + b4);
    let a2 = a.mean + (",\"min\":"@ + a3);
    let b2 = b.mean + (",\"min\":"@ + b3);
    let a1 = decimal(a.count as nat) + (",\"mean\":"@ + a2);
    let b1 = decimal(b.count as nat) + (",\"mean\":"@ + b2);
    lemma_quoted_prefix(name_a, name_b, after_name(a, x), after_name(b, y));
    lemma_same_prefix(":{\"count\":"@, a1, b1);
    lemma_number_prefix(a.count as nat, b.count as nat, ",\"mean\":"@, a2, b2);
    lemma_field_prefix(a.mean, b.mean, ",\"min\":"@, a3, b3);
    lemma_field_prefix(a.min, b.min, ",\"max\":"@, a4, b4);
    lemma_field_prefix(a.max, b.max, ",\"mean_quality\":"@, a5, b5);
    lemma_field_prefix(a.mean_quality, b.mean_quality, "}"@, x, y);
}

/// Lists of entries before the closing braces are alike where their texts are.
proof fn lemma_more_entries_prefix(
    a: Seq<(Seq<char>, StatsView)>,
    b: Seq<(Seq<char>, StatsView)>,
)
    requires
        forall|i: int| 0 <= i < a.len() ==> plain_figures((#[trigger] a[i]).1),
        forall|i: int| 0 <= i < b.len() ==> plain_figures((#[trigger] b[i]).1),
        more_entries(a) + "}}"@ == more_entries(b) + "}}"@,
    ensures
        a == b,
    decreases a.len() + b.len(),
{
    reveal_strlit("}}");
    reveal_strlit(",");
    let s = more_entries(a) + "}}"@;
    let t = more_entries(b) + "}}"@;
    assert(s[0] == t[0]);
    assert(a.len() == 0 ==> s[0] == '}');
    assert(b.len() == 0 ==> t[0] == '}');
    assert(a.len() > 0 ==> s[0] == ',');
    assert(b.len() > 0 ==> t[0] == ',');
    if a.len() == 0 {
        assert(a =~= b);
    } else {
        let x = more_entries(a.skip(1)) + "}}"@;
        let y = more_entries(b.skip(1)) + "}}"@;
        assert(s =~= ","@ + (entry_text(a[0].0, a[0].1) + x));
        assert(t =~= ","@ + (entry_text(b[0].0, b[0].1) + y));
        lemma_same_prefix(
            ","@,
            entry_text(a[0].0, a[0].1) + x,
            entry_text(b[0].0, b[0].1) + y,
        );
        lemma_entry_prefix(a[0].0, a[0].1, b[0].0, b[0].1, x, y);
        assert forall|i: int| 0 <= i < a.skip(1).len() implies plain_figures(
            (#[trigger] a.skip(1)[i]).1,
        ) by {
            assert(a.skip(1)[i] == a[i + 1]);
        }
        assert forall|i: int| 0 <= i < b.skip(1).len() implies plain_figures(
            (#[trigger] b.skip(1)[i]).1,
        ) by {
            assert(b.skip(1)[i] == b[i + 1]);
        }
        lemma_more_entries_prefix(a.skip(1), b.skip(1));
        assert(a =~= seq![a[0]] + a.skip(1));
        assert(b =~= seq![b[0]] + b.skip(1));
    }
}

/// Maps are alike where their texts are.
proof fn lemma_entries_prefix(a: Seq<(Seq<char>, StatsView)>, b: Seq<(Seq<char>, StatsView)>)
    requires
        forall|i: int| 0 <= i < a.len() ==> plain_figures((#[trigger] a[i]).1),
        forall|i: int| 0 <= i < b.len() ==> plain_figures((#[trigger] b[i]).1),
        entries_text(a) + "}}"@ == entries_text(b) + "}}"@,
    ensures
        a == b,
{
    reveal_strlit("}}");
    let s = entries_text(a) + "}}"@;
    let t = entries_text(b) + "}}"@;
    assert(s[0] == t[0]);
    assert(a.len() == 0 ==> s[0] == '}');
    assert(b.len() == 0 ==> t[0] == '}');
    assert(a.len() > 0 ==> s[0] == '"');
    assert(b.len() > 0 ==> t[0] == '"');
    if a.len() == 0 {
        assert(a =~= b);
    } else {
        let x = more_entries(a.skip(1)) + "}}"@;
        let y = more_entries(b.skip(1)) + "}}"@;
        assert(s =~= entry_text(a[0].0, a[0].1) + x);
        assert(t =~= entry_text(b[0].0, b[0].1) + y);
        lemma_entry_prefix(a[0].0, a[0].1, b[0].0, b[0].1, x, y);
        assert forall|i: int| 0 <= i < a.skip(1).len() implies plain_figures(
            (#[trigger] a.skip(1)[i]).1,
        ) by {
            assert(a.skip(1)[i] == a[i + 1]);
        }
        assert forall|i: int| 0 <= i < b.skip(1).len() implies plain_figures(
            (#[trigger] b.skip(1)[i]).1,
        ) by {
            assert(b.skip(1)[i] == b[i + 1]);
        }
        lemma_more_entries_prefix(a.skip(1), b.skip(1));
        assert(a =~= seq![a[0]] + a.skip(1));
        assert(b =~= seq![b[0]] + b.skip(1));
    }
}

/// The canonical text from its beginning.
proof fn lemma_canonical_unfold(s: SummaryView)
    ensures
        canonical_text(s) == "{\"spec_version\":"@ + (json_quoted(s.spec_version)
            + (",\"biome_id\":"@ + (json_quoted(s.biome_id) + (",\"window_start_ns\":"@ + (decimal(
            s.window_start_ns as nat,
        ) + (",\"window_end_ns\":"@ + (decimal(s.window_end_ns as nat) + (",\"stats\":{"@
            + (entries_text(s.stats) + "}}"@))))))))),
{
    let t0 = "{\"spec_version\":"@;
    let t1 = t0 + json_quoted(s.spec_version);
    let t2 = t1 + ",\"biome_id\":"@;
    let t3 = t2 + json_quoted(s.biome_id);
    let t4 = t3 + ",\"window_start_ns\":"@;
    let t5 = t4 + decimal(s.window_start_ns as nat);
    let t6 = t5 + ",\"window_end_ns\":"@;
    let t7 = t6 + decimal(s.window_end_ns as nat);
    let t8 = t7 + ",\"stats\":{"@;
    let r8 = entries_text(s.stats) + "}}"@;
    let r7 = ",\"stats\":{"@ + r8;
    let r6 = decimal(s.window_end_ns as nat) + r7;
    let r5 = ",\"window_end_ns\":"@ + r6;
    let r4 = decimal(s.window_start_ns as nat) + r5;
    let r3 = ",\"window_start_ns\":"@ + r4;
    let r2 = json_quoted(s.biome_id) + r3;
    let r1 = ",\"biome_id\":"@ + r2;
    lemma_join(t8, entries_text(s.stats), "}}"@);
    lemma_join(t7, ",\"stats\":{"@, r8);
    lemma_join(t6, decimal(s.window_end_ns as nat), r7);
    lemma_join(t5, ",\"window_end_ns\":"@, r6);
    lemma_join(t4, decimal(s.window_start_ns as nat), r5);
    lemma_join(t3, ",\"window_start_ns\":"@, r4);
    lemma_join(t2, json_quoted(s.biome_id), r3);
    lemma_join(t1, ",\"biome_id\":"@, r2);
    lemma_join(t0, json_quoted(s.spec_version), r1);
}

/// The separators after the numbers of a summary.
proof fn lemma_summary_separators()
    ensures
        ",\"window_end_ns\":"@.len() > 0 && ",\"window_end_ns\":"@[0] == ',',
        ",\"stats\":{"@.len() > 0 && ",\"stats\":{"@[0] == ',',
{
    reveal_strlit(",\"window_end_ns\":");
    reveal_strlit(",\"stats\":{");
}

/// **The signature covers the whole content.** Two summaries have the same
/// canonical bytes exactly where they say the same: whoever changes any field
/// but the signature's own changes the bytes that the signature is checked
/// against.
pub proof fn law_canonical_bytes_tell_content(a: SummaryView, b: SummaryView)
    requires
        plain_summary(a),
        plain_summary(b),
    ensures
        canonical_bytes(a) == canonical_bytes(b) <==> same_content(a, b),
{
    if canonical_bytes(a) == canonical_bytes(b) {
        encode_utf8_decode_utf8(canonical_text(a));
        encode_utf8_decode_utf8(canonical_text(b));
        lemma_summary_separators();
        lemma_canonical_unfold(a);
        lemma_canonical_unfold(b);
        let a4 = entries_text(a.stats) + "}}"@;
        let b4 = entries_text(b.stats) + "}}"@;
        let a3 = decimal(a.window_end_ns as nat) + (",\"stats\":{"@ + a4);
        let b3 = decimal(b.window_end_ns as nat) + (",\"stats\":{"@ + b4);
        let a2 = decimal(a.window_start_ns as nat) + (",\"window_end_ns\":"@ + a3);
        let b2 = decimal(b.window_start_ns as nat) + (",\"window_end_ns\":"@ + b3);
        let a1 = json_quoted(a.biome_id) + (",\"window_start_ns\":"@ + a2);
        let b1 = json_quoted(b.biome_id) + (",\"window_start_ns\":"@ + b2);
        let a0 = json_quoted(a.spec_version) + (",\"biome_id\":"@ + a1);
        let b0 = json_quoted(b.spec_version) + (",\"biome_id\":"@ + b1);
        lemma_same_prefix("{\"spec_version\":"@, a0, b0);
        lemma_quoted_prefix(
            a.spec_version,
            b.spec_version,
            ",\"biome_id\":"@ + a1,
            ",\"biome_id\":"@ + b1,
        );
        lemma_same_prefix(",\"biome_id\":"@, a1, b1);
        lemma_quoted_prefix(
            a.biome_id,
            b.biome_id,
            ",\"window_start_ns\":"@ + a2,
            ",\"window_start_ns\":"@ + b2,
        );
        lemma_same_prefix(",\"window_start_ns\":"@, a2, b2);
        lemma_number_prefix(
            a.window_start_ns as nat,
            b.window_start_ns as nat,
            ",\"window_end_ns\":"@,
            a3,
            b3,
        );
        lemma_number_prefix(
            a.window_end_ns as nat,
            b.window_end_ns as nat,
            ",\"stats\":{"@,
            a4,
            b4,
        );
        lemma_entries_prefix(a.stats, b.stats);
    }
}

/// An unsigned summary never verifies.
pub proof fn law_unsigned_is_invalid(s: SummaryView)
    requires
        s.signature_hex is None || s.signer_pubkey_hex is None,
    ensures
        !summary_valid(s),
{
}

} // verus!

//! What the outage buffer does, said on nodes and sequence numbers.

use crate::federation::buffer::{key_le, stably_sorted, with_key, BufferView};
use crate::model::sample::EnvSample;
use vstd::prelude::*;

verus! {

/// The samples of a key are those of its node and its sequence number.
proof fn lemma_with_key_picks(samples: Seq<EnvSample>, node_id: u64, sequence: u32)
    ensures
        with_key(samples, (node_id, sequence)) == samples.filter(
            |s: EnvSample| s.node_id == node_id && s.sequence == sequence,
        ),
    decreases samples.len(),
{
    reveal(Seq::filter);
    if samples.len() > 0 {
        lemma_with_key_picks(samples.drop_last(), node_id, sequence);
    }
}

/// A sample occurs as often in a list as among the samples of its key there.
proof fn lemma_with_key_counts(samples: Seq<EnvSample>, s: EnvSample)
    ensures
        samples.to_multiset().count(s) == with_key(samples, s.key()).to_multiset().count(s),
    decreases samples.len(),
{
    broadcast use vstd::seq_lib::group_to_multiset_ensures;

    if samples.len() > 0 {
        let fewer = samples.drop_last();
        lemma_with_key_counts(fewer, s);
        assert(samples =~= fewer.push(samples.last()));
    }
}

/// **What is drained, and in which order**: every buffered sample as often as
/// it is there and nothing else, in order of the nodes, under one node in order
/// of the sequence numbers, and under one sequence number in order of arrival.
pub proof fn law_drain_is_in_order_of_node_and_sequence(
    samples: Seq<EnvSample>,
    out: Seq<EnvSample>,
    node_id: u64,
    sequence: u32,
)
    requires
        stably_sorted(samples, out),
    ensures
        forall|i: int, j: int|
            0 <= i < j < out.len() ==> (#[trigger] out[i]).node_id < (#[trigger] out[j]).node_id
                || (out[i].node_id == out[j].node_id && out[i].sequence <= out[j].sequence),
        out.to_multiset() == samples.to_multiset(),
        out.len() == samples.len(),
        out.filter(|s: EnvSample| s.node_id == node_id && s.sequence == sequence) == samples.filter(
            |s: EnvSample| s.node_id == node_id && s.sequence == sequence,
        ),
{
    broadcast use vstd::seq_lib::group_to_multiset_ensures;

    assert forall|i: int, j: int| 0 <= i < j < out.len() implies (#[trigger] out[i]).node_id < (
    #[trigger] out[j]).node_id || (out[i].node_id == out[j].node_id && out[i].sequence
        <= out[j].sequence) by {
        assert(key_le(out[i].key(), out[j].key()));
    }
    assert forall|s: EnvSample|
        #[trigger] out.to_multiset().count(s) == samples.to_multiset().count(s) by {
        assert(with_key(out, s.key()) == with_key(samples, s.key()));
        lemma_with_key_counts(out, s);
        lemma_with_key_counts(samples, s);
    }
    assert(out.to_multiset() =~= samples.to_multiset());
    vstd::seq_lib::to_multiset_len(out);
    vstd::seq_lib::to_multiset_len(samples);
    assert(with_key(out, (node_id, sequence)) == with_key(samples, (node_id, sequence)));
    lemma_with_key_picks(out, node_id, sequence);
    lemma_with_key_picks(samples, node_id, sequence);
}

/// **What pushing and draining do.** A sample is taken in, behind all others,
/// exactly where its node and sequence number are not known, and they are from
/// then on; draining empties the buffer and forgets nothing.
pub proof fn law_push_and_drain_on_fields(
    buffer: BufferView,
    sample: EnvSample,
    node_id: u64,
    sequence: u32,
)
    ensures
        buffer.seen.contains((sample.node_id, sample.sequence)) ==> buffer.pushed(sample).samples
            == buffer.samples,
        !buffer.seen.contains((sample.node_id, sample.sequence)) ==> buffer.pushed(sample).samples
            == buffer.samples.push(sample),
        buffer.pushed(sample).seen.contains((node_id, sequence)) <==> buffer.seen.contains(
            (node_id, sequence),
        ) || (node_id == sample.node_id && sequence == sample.sequence),
        buffer.drained().samples.len() == 0,
        buffer.drained().seen == buffer.seen,
        buffer.consistent() <==> {
            &&& forall|i: int|
                0 <= i < buffer.samples.len() ==> buffer.seen.contains(
                    ((#[trigger] buffer.samples[i]).node_id, buffer.samples[i].sequence),
                )
            &&& forall|i: int, j: int|
                0 <= i < j < buffer.samples.len() ==> (#[trigger] buffer.samples[i]).node_id != (
                #[trigger] buffer.samples[j]).node_id || buffer.samples[i].sequence
                    != buffer.samples[j].sequence
        },
{
    if buffer.consistent() {
        assert forall|i: int, j: int| 0 <= i < j < buffer.samples.len() implies (
        #[trigger] buffer.samples[i]).node_id != (#[trigger] buffer.samples[j]).node_id
            || buffer.samples[i].sequence != buffer.samples[j].sequence by {
            assert(buffer.samples[i].key() != buffer.samples[j].key());
        }
        assert forall|i: int| 0 <= i < buffer.samples.len() implies buffer.seen.contains(
            ((#[trigger] buffer.samples[i]).node_id, buffer.samples[i].sequence),
        ) by {
            assert(buffer.seen.contains(buffer.samples[i].key()));
        }
    }
}

} // verus!

//! `OutageBuffer`: store-and-forward with duplicate-free replay.
//!
//! While the uplink is down the gateway pushes samples here; on restore they
//! are drained in `(node_id, sequence)` order. The dedup index outlives both
//! draining and a restart.

use crate::model::keys::{insert_keys, list_keys};
use crate::model::sample::EnvSample;
use std::collections::BTreeSet;
use vstd::prelude::*;

verus! {

/// The buffer, as values.
#[verifier::ext_equal]
pub struct BufferView {
    /// The buffered samples, in order of arrival.
    pub samples: Seq<EnvSample>,
    /// Every key ever pushed.
    pub seen: Set<(u64, u32)>,
}

impl BufferView {
    /// Every buffered sample is known to the dedup index, and none is there
    /// twice.
    pub open spec fn consistent(self) -> bool {
        &&& forall|i: int|
            0 <= i < self.samples.len() ==> self.seen.contains(#[trigger] self.samples[i].key())
        &&& forall|i: int, j: int|
            0 <= i < j < self.samples.len() ==> #[trigger] self.samples[i].key()
                != #[trigger] self.samples[j].key()
    }

    /// The buffer after a sample was pushed, taken in or dropped.
    pub open spec fn pushed(self, sample: EnvSample) -> BufferView {
        if self.seen.contains(sample.key()) {
            self
        } else {
            BufferView {
                samples: self.samples.push(sample),
                seen: self.seen.insert(sample.key()),
            }
        }
    }

    /// The buffer after its samples were drained.
    pub open spec fn drained(self) -> BufferView {
        BufferView { samples: Seq::empty(), ..self }
    }
}

/// Keys in order of node, then of sequence number.
pub open spec fn key_le(a: (u64, u32), b: (u64, u32)) -> bool {
    a.0 < b.0 || (a.0 == b.0 && a.1 <= b.1)
}

/// The samples are in order of their keys.
pub open spec fn sorted_by_key(samples: Seq<EnvSample>) -> bool {
    forall|i: int, j: int|
        0 <= i < j < samples.len() ==> key_le(
            #[trigger] samples[i].key(),
            #[trigger] samples[j].key(),
        )
}

/// The samples of one key, in their order.
pub open spec fn with_key(samples: Seq<EnvSample>, key: (u64, u32)) -> Seq<EnvSample>
    decreases samples.len(),
{
    if samples.len() == 0 {
        Seq::empty()
    } else if samples.last().key() == key {
        with_key(samples.drop_last(), key).push(samples.last())
    } else {
        with_key(samples.drop_last(), key)
    }
}

/// `out` is `samples` in order of the keys, with samples of the same key in
/// the order they had.
pub open spec fn stably_sorted(samples: Seq<EnvSample>, out: Seq<EnvSample>) -> bool {
    &&& sorted_by_key(out)
    &&& forall|key: (u64, u32)| #[trigger] with_key(out, key) == with_key(samples, key)
}

/// The samples of a key in two lists, one after the other.
proof fn lemma_with_key_add(a: Seq<EnvSample>, b: Seq<EnvSample>, key: (u64, u32))
    ensures
        with_key(a + b, key) == with_key(a, key) + with_key(b, key),
    decreases b.len(),
{
    if b.len() == 0 {
        assert(a + b =~= a);
        assert(with_key(a, key) + with_key(b, key) =~= with_key(a, key));
    } else {
        assert((a + b).drop_last() =~= a + b.drop_last());
        lemma_with_key_add(a, b.drop_last(), key);
        assert(with_key(a + b, key) =~= with_key(a, key) + with_key(b, key));
    }
}

/// A list without the key has no samples of it.
proof fn lemma_with_key_none(samples: Seq<EnvSample>, key: (u64, u32))
    requires
        forall|i: int| 0 <= i < samples.len() ==> #[trigger] samples[i].key() != key,
    ensures
        with_key(samples, key) == Seq::<EnvSample>::empty(),
    decreases samples.len(),
{
    if samples.len() > 0 {
        assert(samples[samples.len() - 1].key() != key);
        assert forall|i: int| 0 <= i < samples.drop_last().len() implies #[trigger]
            samples.drop_last()[i].key() != key by {
            assert(samples[i].key() != key);
        }
        lemma_with_key_none(samples.drop_last(), key);
    }
}

/// A single sample of a key.
proof fn lemma_with_key_one(sample: EnvSample, key: (u64, u32))
    ensures
        with_key(seq![sample], key) == (if sample.key() == key {
            seq![sample]
        } else {
            Seq::empty()
        }),
{
    let one = seq![sample];
    assert(one.drop_last() =~= Seq::empty());
    assert(with_key(one.drop_last(), key) =~= Seq::empty());
    assert(with_key(one, key) =~= if sample.key() == key {
        one
    } else {
        Seq::empty()
    });
}

/// The samples of a key are samples of the list.
proof fn lemma_with_key_member(samples: Seq<EnvSample>, i: int)
    requires
        0 <= i < samples.len(),
    ensures
        with_key(samples, samples[i].key()).len() > 0,
    decreases samples.len(),
{
    if i < samples.len() - 1 {
        lemma_with_key_member(samples.drop_last(), i);
    }
}

/// Where a list has samples of a key, some sample has it.
proof fn lemma_with_key_some(samples: Seq<EnvSample>, key: (u64, u32)) -> (i: int)
    requires
        with_key(samples, key).len() > 0,
    ensures
        0 <= i < samples.len(),
        samples[i].key() == key,
    decreases samples.len(),
{
    if samples.last().key() == key {
        samples.len() - 1
    } else {
        lemma_with_key_some(samples.drop_last(), key)
    }
}

/// **The order of replay is determined**: at most one list is a given one in
/// stable order of the keys.
pub proof fn law_drain_order_is_determined(
    samples: Seq<EnvSample>,
    a: Seq<EnvSample>,
    b: Seq<EnvSample>,
)
    requires
        stably_sorted(samples, a),
        stably_sorted(samples, b),
    ensures
        a == b,
{
    assert forall|key: (u64, u32)| #[trigger] with_key(a, key) == with_key(b, key) by {
        assert(with_key(a, key) == with_key(samples, key));
        assert(with_key(b, key) == with_key(samples, key));
    }
    lemma_sorted_is_determined(a, b);
}

proof fn lemma_sorted_is_determined(a: Seq<EnvSample>, b: Seq<EnvSample>)
    requires
        sorted_by_key(a),
        sorted_by_key(b),
        forall|key: (u64, u32)| #[trigger] with_key(a, key) == with_key(b, key),
    ensures
        a == b,
    decreases a.len(),
{
    if a.len() == 0 {
        if b.len() > 0 {
            lemma_with_key_member(b, 0);
            assert(with_key(a, b[0].key()).len() > 0);
        }
        assert(a =~= b);
    } else {
        let m = a.len() - 1;
        let k = a[m].key();
        lemma_with_key_member(a, m);
        let i = lemma_with_key_some(b, k);
        let n = b.len() - 1;
        lemma_with_key_member(b, n);
        assert(with_key(a, b[n].key()).len() > 0);
        let j = lemma_with_key_some(a, b[n].key());
        assert(i < n ==> key_le(b[i].key(), b[n].key()));
        assert(j < m ==> key_le(a[j].key(), a[m].key()));
        assert(b[n].key() == k);
        assert(with_key(a, k) == with_key(a.drop_last(), k).push(a.last()));
        assert(with_key(b, k) == with_key(b.drop_last(), k).push(b.last()));
        assert(with_key(a, k).last() == with_key(b, k).last());
        assert(a.last() == b.last());
        assert forall|key: (u64, u32)| #[trigger]
            with_key(a.drop_last(), key) == with_key(b.drop_last(), key) by {
            assert(with_key(a, key) == with_key(b, key));
            if key == k {
                assert(with_key(a, k).drop_last() =~= with_key(a.drop_last(), k));
                assert(with_key(b, k).drop_last() =~= with_key(b.drop_last(), k));
            }
        }
        assert forall|x: int, y: int| 0 <= x < y < a.drop_last().len() implies key_le(
            #[trigger] a.drop_last()[x].key(),
            #[trigger] a.drop_last()[y].key(),
        ) by {
            assert(key_le(a[x].key(), a[y].key()));
        }
        assert forall|x: int, y: int| 0 <= x < y < b.drop_last().len() implies key_le(
            #[trigger] b.drop_last()[x].key(),
            #[trigger] b.drop_last()[y].key(),
        ) by {
            assert(key_le(b[x].key(), b[y].key()));
        }
        lemma_sorted_is_determined(a.drop_last(), b.drop_last());
        assert(a =~= a.drop_last().push(a.last()));
        assert(b =~= b.drop_last().push(b.last()));
    }
}

/// Merge two sorted lists; of samples with the same key those of `a` come
/// first.
fn merge(a: Vec<EnvSample>, b: Vec<EnvSample>) -> (out: Vec<EnvSample>)
    requires
        sorted_by_key(a@),
        sorted_by_key(b@),
    ensures
        stably_sorted(a@ + b@, out@),
{
    let ghost a0 = a@;
    let ghost b0 = b@;
    let mut a = a;
    let mut b = b;
    let mut backward: Vec<EnvSample> = Vec::new();
    proof {
        assert(backward@.reverse() =~= Seq::empty());
        assert(a@ + b@ + backward@.reverse() =~= a0 + b0);
    }
    while a.len() > 0 || b.len() > 0
        invariant
            sorted_by_key(a@),
            sorted_by_key(b@),
            sorted_by_key(backward@.reverse()),
            forall|i: int, j: int|
                0 <= i < a@.len() && 0 <= j < backward@.len() ==> key_le(
                    #[trigger] a@[i].key(),
                    #[trigger] backward@[j].key(),
                ),
            forall|i: int, j: int|
                0 <= i < b@.len() && 0 <= j < backward@.len() ==> key_le(
                    #[trigger] b@[i].key(),
                    #[trigger] backward@[j].key(),
                ),
            forall|key: (u64, u32)| #[trigger]
                with_key(a@ + b@ + backward@.reverse(), key) == with_key(a0 + b0, key),
        decreases a.len() + b.len(),
    {
        let ghost old_a = a@;
        let ghost old_b = b@;
        let ghost old_back = backward@;
        let m = a.len();
        let n = b.len();
        let from_b = n > 0 && (m == 0 || {
            let x = a[m - 1].dedup_key();
            let y = b[n - 1].dedup_key();
            x.0 < y.0 || (x.0 == y.0 && x.1 <= y.1)
        });
        if from_b {
            let last = b.pop().unwrap();
            backward.push(last);
            proof {
                assert(backward@.reverse() =~= seq![last] + old_back.reverse());
                assert(b@.push(last) =~= old_b);
                assert(a@ + b@ + backward@.reverse() =~= old_a + old_b + old_back.reverse());
                assert(m > 0 ==> key_le(a@[m - 1].key(), last.key()));
                assert forall|i: int| 0 <= i < a@.len() implies key_le(
                    #[trigger] a@[i].key(),
                    last.key(),
                ) by {
                    if i < m - 1 {
                        assert(key_le(a@[i].key(), a@[m - 1].key()));
                    }
                }
                assert forall|i: int| 0 <= i < b@.len() implies key_le(
                    #[trigger] b@[i].key(),
                    last.key(),
                ) by {
                    assert(b@[i] == old_b[i]);
                    assert(key_le(old_b[i].key(), old_b[n - 1].key()));
                }
                assert(old_b[n - 1] == last);
            }
        } else {
            let last = a.pop().unwrap();
            backward.push(last);
            proof {
                assert(backward@.reverse() =~= seq![last] + old_back.reverse());
                assert(a@.push(last) =~= old_a);
                assert(old_a[m - 1] == last);
                assert forall|i: int| 0 <= i < b@.len() implies key_le(
                    #[trigger] b@[i].key(),
                    last.key(),
                ) && b@[i].key() != last.key() by {
                    if i < n - 1 {
                        assert(key_le(b@[i].key(), b@[n - 1].key()));
                    }
                }
                assert forall|i: int| 0 <= i < a@.len() implies key_le(
                    #[trigger] a@[i].key(),
                    last.key(),
                ) by {
                    assert(a@[i] == old_a[i]);
                    assert(key_le(old_a[i].key(), old_a[m - 1].key()));
                }
                let one = seq![last];
                let rest = old_back.reverse();
                assert forall|key: (u64, u32)| #[trigger]
                    with_key(a@ + b@ + backward@.reverse(), key) == with_key(a0 + b0, key) by {
                    assert(with_key(old_a + old_b + rest, key) == with_key(a0 + b0, key));
                    assert(a@ + b@ + backward@.reverse() =~= a@ + b@ + one + rest);
                    assert(old_a + old_b + rest =~= a@ + one + b@ + rest);
                    lemma_with_key_add(a@ + b@ + one, rest, key);
                    lemma_with_key_add(a@ + b@, one, key);
                    lemma_with_key_add(a@, b@, key);
                    lemma_with_key_add(a@ + one + b@, rest, key);
                    lemma_with_key_add(a@ + one, b@, key);
                    lemma_with_key_add(a@, one, key);
                    lemma_with_key_one(last, key);
                    if last.key() == key {
                        lemma_with_key_none(b@, key);
                        assert(with_key(a@, key) + with_key(b@, key) + one =~= with_key(a@, key)
                            + one + with_key(b@, key));
                    } else {
                        assert(with_key(a@, key) + with_key(b@, key) + Seq::<EnvSample>::empty()
                            =~= with_key(a@, key) + Seq::<EnvSample>::empty() + with_key(b@, key));
                    }
                }
            }
        }
        proof {
            let back = backward@;
            let last = back.last();
            assert forall|i: int, j: int|
                0 <= i < a@.len() && 0 <= j < back.len() implies key_le(
                #[trigger] a@[i].key(),
                #[trigger] back[j].key(),
            ) by {
                assert(a@[i] == old_a[i]);
                if j < old_back.len() {
                    assert(back[j] == old_back[j]);
                }
            }
            assert forall|i: int, j: int|
                0 <= i < b@.len() && 0 <= j < back.len() implies key_le(
                #[trigger] b@[i].key(),
                #[trigger] back[j].key(),
            ) by {
                assert(b@[i] == old_b[i]);
                if j < old_back.len() {
                    assert(back[j] == old_back[j]);
                }
            }
            let forward = back.reverse();
            let before = old_back.reverse();
            assert(forward =~= seq![last] + before);
            assert forall|x: int, y: int| 0 <= x < y < forward.len() implies key_le(
                #[trigger] forward[x].key(),
                #[trigger] forward[y].key(),
            ) by {
                if x == 0 {
                    let j = old_back.len() - y;
                    assert(forward[y] == old_back[j]);
                    if from_b {
                        assert(key_le(old_b[n - 1].key(), old_back[j].key()));
                    } else {
                        assert(key_le(old_a[m - 1].key(), old_back[j].key()));
                    }
                } else {
                    assert(forward[x] == before[x - 1] && forward[y] == before[y - 1]);
                }
            }
            assert forall|x: int, y: int| 0 <= x < y < a@.len() implies key_le(
                #[trigger] a@[x].key(),
                #[trigger] a@[y].key(),
            ) by {
                assert(a@[x] == old_a[x] && a@[y] == old_a[y]);
            }
            assert forall|x: int, y: int| 0 <= x < y < b@.len() implies key_le(
                #[trigger] b@[x].key(),
                #[trigger] b@[y].key(),
            ) by {
                assert(b@[x] == old_b[x] && b@[y] == old_b[y]);
            }
        }
    }
    let ghost merged = backward@.reverse();
    proof {
        assert(a@ + b@ + merged =~= merged);
        assert forall|key: (u64, u32)| #[trigger] with_key(merged, key) == with_key(a0 + b0, key) by {
            assert(with_key(a@ + b@ + merged, key) == with_key(a0 + b0, key));
        }
    }
    reversed(backward)
}

/// The samples in the opposite order.
fn reversed(samples: Vec<EnvSample>) -> (out: Vec<EnvSample>)
    ensures
        out@ == samples@.reverse(),
{
    let ghost all = samples@;
    let mut samples = samples;
    let mut out: Vec<EnvSample> = Vec::new();
    while samples.len() > 0
        invariant
            samples@ + out@.reverse() == all,
        decreases samples.len(),
    {
        let ghost before = samples@;
        let ghost given = out@;
        let last = samples.pop().unwrap();
        out.push(last);
        assert(out@.reverse() =~= seq![last] + given.reverse());
        assert(samples@.push(last) =~= before);
        assert(samples@ + out@.reverse() =~= before + given.reverse());
    }
    assert(samples@ + out@.reverse() =~= out@.reverse());
    assert(out@ =~= all.reverse());
    out
}

/// Stable merge sort by key.
fn sort_by_key(samples: Vec<EnvSample>) -> (out: Vec<EnvSample>)
    ensures
        stably_sorted(samples@, out@),
    decreases samples.len(),
{
    if samples.len() < 2 {
        return samples;
    }
    let ghost all = samples@;
    let mut head = samples;
    let half = head.len() / 2;
    let tail = head.split_off(half);
    let ghost head_given = head@;
    let ghost tail_given = tail@;
    let a = sort_by_key(head);
    let b = sort_by_key(tail);
    let out = merge(a, b);
    proof {
        assert(head_given + tail_given =~= all);
        assert forall|key: (u64, u32)| #[trigger] with_key(out@, key) == with_key(all, key) by {
            assert(with_key(out@, key) == with_key(a@ + b@, key));
            lemma_with_key_add(a@, b@, key);
            lemma_with_key_add(head_given, tail_given, key);
            assert(with_key(a@, key) == with_key(head_given, key));
            assert(with_key(b@, key) == with_key(tail_given, key));
        }
    }
    out
}

/// Store-and-forward log that a gateway fills while its uplink is down.
///
/// Duplicates are recognized by the stable sample key `(node_id, sequence)`.
#[derive(Debug, Clone, PartialEq)]
pub struct OutageBuffer {
    /// Buffered samples, in arrival order.
    samples: Vec<EnvSample>,
    /// Every key ever pushed.
    seen: BTreeSet<(u64, u32)>,
}

impl View for OutageBuffer {
    type V = BufferView;

    closed spec fn view(&self) -> BufferView {
        BufferView { samples: self.samples@, seen: self.seen@ }
    }
}

impl Default for OutageBuffer {
    fn default() -> (buffer: OutageBuffer)
        ensures
            buffer@ == (BufferView { samples: Seq::empty(), seen: Set::empty() }),
    {
        OutageBuffer::new()
    }
}

impl OutageBuffer {
    /// Create an empty buffer.
    pub fn new() -> (buffer: OutageBuffer)
        ensures
            buffer@ == (BufferView { samples: Seq::empty(), seen: Set::empty() }),
            buffer@.consistent(),
    {
        OutageBuffer { samples: Vec::new(), seen: BTreeSet::new() }
    }

    /// A buffer as it was saved: its samples and its dedup index.
    pub fn from_parts(samples: Vec<EnvSample>, keys: &Vec<(u64, u32)>) -> (buffer: OutageBuffer)
        ensures
            buffer@ == (BufferView { samples: samples@, seen: keys@.to_set() }),
    {
        let mut seen: BTreeSet<(u64, u32)> = BTreeSet::new();
        insert_keys(&mut seen, keys);
        assert(seen@ =~= keys@.to_set());
        OutageBuffer { samples, seen }
    }

    /// Buffer a sample. `false` (dropped) when its key has been buffered
    /// before, also before a restart.
    pub fn push(&mut self, sample: EnvSample) -> (taken: bool)
        ensures
            taken == !old(self)@.seen.contains(sample.key()),
            final(self)@ == old(self)@.pushed(sample),
    {
        if !self.seen.insert(sample.dedup_key()) {
            assert(self@ =~= old(self)@);
            return false;
        }
        self.samples.push(sample);
        true
    }

    /// Number of samples currently buffered.
    pub fn len(&self) -> (n: usize)
        ensures
            n == self@.samples.len(),
    {
        self.samples.len()
    }

    /// Whether no samples are currently buffered.
    pub fn is_empty(&self) -> (empty: bool)
        ensures
            empty == (self@.samples.len() == 0),
    {
        self.samples.len() == 0
    }

    /// The buffered samples, in order of arrival.
    pub fn samples(&self) -> (samples: &[EnvSample])
        ensures
            samples@ == self@.samples,
    {
        self.samples.as_slice()
    }

    /// The dedup index, each key once.
    pub fn seen_keys(&self) -> (keys: Vec<(u64, u32)>)
        ensures
            keys@.to_set() == self@.seen,
            keys@.no_duplicates(),
    {
        list_keys(&self.seen)
    }

    /// Remove and return all buffered samples in `(node_id, sequence)` order.
    /// The dedup index is kept: a key that was drained is still a duplicate
    /// if it arrives again.
    pub fn drain(&mut self) -> (out: Vec<EnvSample>)
        ensures
            stably_sorted(old(self)@.samples, out@),
            final(self)@ == old(self)@.drained(),
    {
        let mut samples: Vec<EnvSample> = Vec::new();
        std::mem::swap(&mut samples, &mut self.samples);
        sort_by_key(samples)
    }
}

/// **A buffer stays consistent** through pushing and draining.
pub proof fn law_buffer_stays_consistent(buffer: BufferView, sample: EnvSample)
    requires
        buffer.consistent(),
    ensures
        buffer.pushed(sample).consistent(),
        buffer.drained().consistent(),
{
    let after = buffer.pushed(sample);
    if !buffer.seen.contains(sample.key()) {
        let n = buffer.samples.len();
        assert forall|i: int| 0 <= i < after.samples.len() implies after.seen.contains(
            #[trigger] after.samples[i].key(),
        ) by {
            if i < n {
                assert(after.samples[i] == buffer.samples[i]);
            }
        }
        assert forall|i: int, j: int| 0 <= i < j < after.samples.len() implies #[trigger]
            after.samples[i].key() != #[trigger] after.samples[j].key() by {
            assert(after.samples[i] == buffer.samples[i]);
            if j < n {
                assert(after.samples[j] == buffer.samples[j]);
            }
        }
    }
}

/// **A key that was pushed stays a duplicate**, whatever else is pushed and
/// however often the buffer is drained.
pub proof fn law_pushed_key_stays_duplicate(
    buffer: BufferView,
    sample: EnvSample,
    other: EnvSample,
)
    ensures
        buffer.pushed(sample).seen.contains(sample.key()),
        buffer.seen.contains(sample.key()) ==> buffer.pushed(other).seen.contains(sample.key()),
        buffer.seen.contains(sample.key()) ==> buffer.drained().seen.contains(sample.key()),
        buffer.seen.contains(sample.key()) ==> buffer.pushed(sample) == buffer,
{
}

/// A list without repetition has a key at most once.
proof fn lemma_with_key_at_most_one(samples: Seq<EnvSample>, key: (u64, u32))
    requires
        forall|i: int, j: int|
            0 <= i < j < samples.len() ==> #[trigger] samples[i].key()
                != #[trigger] samples[j].key(),
    ensures
        with_key(samples, key).len() <= 1,
    decreases samples.len(),
{
    if samples.len() > 0 {
        let n = samples.len() - 1;
        let fewer = samples.drop_last();
        assert forall|i: int, j: int| 0 <= i < j < fewer.len() implies #[trigger] fewer[i].key()
            != #[trigger] fewer[j].key() by {
            assert(fewer[i] == samples[i] && fewer[j] == samples[j]);
        }
        lemma_with_key_at_most_one(fewer, key);
        if samples[n].key() == key {
            assert forall|i: int| 0 <= i < fewer.len() implies #[trigger] fewer[i].key() != key by {
                assert(fewer[i] == samples[i]);
                assert(samples[i].key() != samples[n].key());
            }
            lemma_with_key_none(fewer, key);
        }
    }
}

/// Two samples of a key make two.
proof fn lemma_with_key_two(samples: Seq<EnvSample>, i: int, j: int)
    requires
        0 <= i < j < samples.len(),
        samples[i].key() == samples[j].key(),
    ensures
        with_key(samples, samples[j].key()).len() >= 2,
    decreases samples.len(),
{
    if j < samples.len() - 1 {
        lemma_with_key_two(samples.drop_last(), i, j);
    } else {
        lemma_with_key_member(samples.drop_last(), i);
    }
}

/// **A drain replays each sample once**: the samples drained from a
/// consistent buffer are those that were in it, and no two share a key.
pub proof fn law_drain_replays_once(buffer: BufferView, out: Seq<EnvSample>)
    requires
        buffer.consistent(),
        stably_sorted(buffer.samples, out),
    ensures
        forall|i: int, j: int|
            0 <= i < j < out.len() ==> #[trigger] out[i].key() != #[trigger] out[j].key(),
        forall|s: EnvSample| #[trigger] out.contains(s) <==> buffer.samples.contains(s),
{
    let samples = buffer.samples;
    assert forall|i: int, j: int| 0 <= i < j < out.len() implies #[trigger] out[i].key()
        != #[trigger] out[j].key() by {
        let key = out[j].key();
        lemma_with_key_at_most_one(samples, key);
        assert(with_key(out, key) == with_key(samples, key));
        if out[i].key() == key {
            lemma_with_key_two(out, i, j);
        }
    }
    assert forall|s: EnvSample| #[trigger] out.contains(s) <==> samples.contains(s) by {
        assert(with_key(out, s.key()) == with_key(samples, s.key()));
        lemma_with_key_holds(out, s);
        lemma_with_key_holds(samples, s);
    }
}

/// A sample is in the list exactly where it is among the samples of its key.
proof fn lemma_with_key_holds(samples: Seq<EnvSample>, s: EnvSample)
    ensures
        samples.contains(s) <==> with_key(samples, s.key()).contains(s),
    decreases samples.len(),
{
    if samples.len() > 0 {
        let n = samples.len() - 1;
        let fewer = samples.drop_last();
        let few = with_key(fewer, s.key());
        let more = with_key(samples, s.key());
        lemma_with_key_holds(fewer, s);
        if samples.contains(s) {
            let i = choose|i: int| 0 <= i < samples.len() && samples[i] == s;
            if i < n {
                assert(fewer[i] == s);
                let k = choose|k: int| 0 <= k < few.len() && few[k] == s;
                assert(more[k] == s);
            } else {
                assert(more[more.len() - 1] == s);
            }
        }
        if more.contains(s) {
            let k = choose|k: int| 0 <= k < more.len() && more[k] == s;
            if k < few.len() {
                assert(few[k] == s);
                let i = choose|i: int| 0 <= i < fewer.len() && fewer[i] == s;
                assert(samples[i] == s);
            } else {
                assert(samples[n] == s);
            }
        }
    }
}

/// **A buffer survives a restart**: made again of its samples and of the keys
/// of its dedup index, in whatever order those were saved, it is the same.
pub proof fn law_restart_gives_back(buffer: BufferView, keys: Seq<(u64, u32)>)
    requires
        keys.to_set() == buffer.seen,
    ensures
        (BufferView { samples: buffer.samples, seen: keys.to_set() }) == buffer,
{
}

} // verus!

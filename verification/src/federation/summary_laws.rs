//! What the extremes of a summary are where its window is split.

use crate::federation::grouping::{lemma_split_readings, readings_of, Reading};
use crate::federation::summary::{folded, stats_of_window, Figures, StatsView};
use crate::model::sample::EnvSample;
use vstd::prelude::*;

verus! {

/// An order on readings: which of two has no larger value.
pub type Order = spec_fn(Reading, Reading) -> bool;

/// The order the other way round.
pub open spec fn reversed(le: Order) -> Order {
    |a: Reading, b: Reading| le(b, a)
}

/// Any two readings compare, the order is transitive, and readings that are
/// equal in it have the same text.
pub open spec fn ranks(le: Order, text: spec_fn(Reading) -> Seq<char>) -> bool {
    &&& forall|a: Reading, b: Reading| #[trigger] le(a, b) || le(b, a)
    &&& forall|a: Reading, b: Reading, c: Reading| #[trigger]
        le(a, b) && #[trigger] le(b, c) ==> le(a, c)
    &&& forall|a: Reading, b: Reading| #[trigger] le(a, b) && le(b, a) ==> text(a) == text(b)
}

/// The reading is among the readings, and none is before it.
pub open spec fn is_least(r: Reading, readings: Seq<Reading>, le: Order) -> bool {
    &&& readings.contains(r)
    &&& forall|x: Reading| #[trigger] readings.contains(x) ==> le(r, x)
}

/// A least one of the readings.
pub open spec fn least_of(readings: Seq<Reading>, le: Order) -> Reading {
    choose|r: Reading| is_least(r, readings, le)
}

/// The text is that of a least one of the readings.
pub open spec fn is_least_text(
    given: Seq<char>,
    readings: Seq<Reading>,
    le: Order,
    text: spec_fn(Reading) -> Seq<char>,
) -> bool {
    exists|r: Reading| #[trigger] is_least(r, readings, le) && given == text(r)
}

/// The figures have the text of a least reading for their minimum and that of
/// a greatest one for their maximum.
pub open spec fn picks_extremes<F: Fn(&Vec<Reading>) -> Figures>(
    fold: F,
    le: Order,
    text: spec_fn(Reading) -> Seq<char>,
) -> bool {
    forall|v: &Vec<Reading>, figures: Figures| #[trigger]
        call_ensures(fold, (v,), figures) && v@.len() > 0 ==> is_least_text(
            figures.min@,
            v@,
            le,
            text,
        ) && is_least_text(figures.max@, v@, reversed(le), text)
}

/// The entry of the modality, if it has one.
pub open spec fn entry_for(
    stats: Seq<(Seq<char>, StatsView)>,
    modality: Seq<char>,
) -> Option<StatsView>
    decreases stats.len(),
{
    if stats.len() == 0 {
        None
    } else if stats.last().0 == modality {
        Some(stats.last().1)
    } else {
        entry_for(stats.drop_last(), modality)
    }
}

/// An entry that is found stands among the entries.
proof fn lemma_entry_stands(stats: Seq<(Seq<char>, StatsView)>, modality: Seq<char>) -> (i: int)
    requires
        entry_for(stats, modality) is Some,
    ensures
        0 <= i < stats.len(),
        stats[i] == (modality, entry_for(stats, modality)->0),
    decreases stats.len(),
{
    if stats.last().0 == modality {
        stats.len() - 1
    } else {
        lemma_entry_stands(stats.drop_last(), modality)
    }
}

/// An entry that stands among the entries is found.
proof fn lemma_entry_is_found(stats: Seq<(Seq<char>, StatsView)>, modality: Seq<char>, i: int)
    requires
        0 <= i < stats.len(),
        stats[i].0 == modality,
    ensures
        entry_for(stats, modality) is Some,
    decreases stats.len(),
{
    if stats.last().0 != modality {
        assert(stats.drop_last()[i] == stats[i]);
        lemma_entry_is_found(stats.drop_last(), modality, i);
    }
}

/// A least text is that of every least reading.
proof fn lemma_least_text(
    given: Seq<char>,
    readings: Seq<Reading>,
    le: Order,
    text: spec_fn(Reading) -> Seq<char>,
    r: Reading,
)
    requires
        forall|a: Reading, b: Reading| #[trigger] le(a, b) && le(b, a) ==> text(a) == text(b),
        is_least_text(given, readings, le, text),
        is_least(r, readings, le),
    ensures
        given == text(r),
{
    let own = choose|own: Reading| #[trigger]
        is_least(own, readings, le) && given == text(own);
    assert(readings.contains(own) && readings.contains(r));
    assert(le(own, r) && le(r, own));
}

/// The entry of a modality is there where it has readings, and then its
/// extremes are those of the readings.
proof fn lemma_entry_extremes<F: Fn(&Vec<Reading>) -> Figures>(
    stats: Seq<(Seq<char>, StatsView)>,
    samples: Seq<EnvSample>,
    start_ns: u64,
    end_ns: u64,
    fold: F,
    modality: Seq<char>,
    le: Order,
    text: spec_fn(Reading) -> Seq<char>,
)
    requires
        stats_of_window(stats, samples, start_ns, end_ns, fold),
        picks_extremes(fold, le, text),
    ensures
        ({
            let readings = readings_of(samples, start_ns, end_ns, modality);
            let entry = entry_for(stats, modality);
            &&& entry is Some <==> readings.len() > 0
            &&& entry is Some ==> is_least_text(entry->0.min, readings, le, text)
                && is_least_text(entry->0.max, readings, reversed(le), text)
        }),
{
    let readings = readings_of(samples, start_ns, end_ns, modality);
    let entry = entry_for(stats, modality);
    if readings.len() > 0 {
        let i = choose|i: int| 0 <= i < stats.len() && (#[trigger] stats[i]).0 == modality;
        lemma_entry_is_found(stats, modality, i);
    }
    if entry is Some {
        let i = lemma_entry_stands(stats, modality);
        assert(folded(fold, readings, stats[i].1));
        let (v, figures) = choose|v: Vec<Reading>, figures: Figures|
            {
                &&& v@ == readings
                &&& #[trigger] call_ensures(fold, (&v,), figures)
                &&& entry->0.mean == figures.mean@
                &&& entry->0.min == figures.min@
                &&& entry->0.max == figures.max@
                &&& entry->0.mean_quality == figures.mean_quality@
            };
        assert(call_ensures(fold, (&v,), figures) && v@.len() > 0);
    }
}

/// The members of a split window are those of its parts.
proof fn lemma_split_members(
    samples: Seq<EnvSample>,
    start_ns: u64,
    middle_ns: u64,
    end_ns: u64,
    modality: Seq<char>,
    x: Reading,
)
    requires
        start_ns <= middle_ns <= end_ns,
    ensures
        readings_of(samples, start_ns, end_ns, modality).contains(x) <==> (readings_of(
            samples,
            start_ns,
            middle_ns,
            modality,
        ).contains(x) || readings_of(samples, middle_ns, end_ns, modality).contains(x)),
{
    broadcast use vstd::seq_lib::group_to_multiset_ensures;

    lemma_split_readings(samples, start_ns, middle_ns, end_ns, modality);
    let whole = readings_of(samples, start_ns, end_ns, modality);
    let left = readings_of(samples, start_ns, middle_ns, modality);
    let right = readings_of(samples, middle_ns, end_ns, modality);
    assert(whole.to_multiset().count(x) == left.to_multiset().count(x) + right.to_multiset().count(
        x,
    ));
    assert(whole.contains(x) <==> whole.to_multiset().count(x) > 0);
    assert(left.contains(x) <==> left.to_multiset().count(x) > 0);
    assert(right.contains(x) <==> right.to_multiset().count(x) > 0);
}

/// The text that comes first of the least texts of two lists is the least text
/// of what both hold.
proof fn lemma_least_of_parts(
    whole: Seq<Reading>,
    left: Seq<Reading>,
    right: Seq<Reading>,
    le: Order,
    text: spec_fn(Reading) -> Seq<char>,
    whole_text: Seq<char>,
    left_text: Seq<char>,
    right_text: Seq<char>,
)
    requires
        ranks(le, text),
        forall|x: Reading| #[trigger]
            whole.contains(x) <==> (left.contains(x) || right.contains(x)),
        is_least_text(whole_text, whole, le, text),
        left.len() > 0 ==> is_least_text(left_text, left, le, text),
        right.len() > 0 ==> is_least_text(right_text, right, le, text),
    ensures
        left.len() > 0 && right.len() == 0 ==> whole_text == left_text,
        left.len() == 0 && right.len() > 0 ==> whole_text == right_text,
        left.len() > 0 && right.len() > 0 ==> whole_text == (if le(
            least_of(left, le),
            least_of(right, le),
        ) {
            left_text
        } else {
            right_text
        }),
{
    let a = least_of(left, le);
    let b = least_of(right, le);
    if left.len() > 0 {
        lemma_least_text(left_text, left, le, text, a);
    }
    if right.len() > 0 {
        lemma_least_text(right_text, right, le, text, b);
    }
    assert(left.len() == 0 ==> forall|x: Reading| !left.contains(x));
    assert(right.len() == 0 ==> forall|x: Reading| !right.contains(x));
    if left.len() > 0 || right.len() > 0 {
        let c = if right.len() == 0 || (left.len() > 0 && le(a, b)) {
            a
        } else {
            b
        };
        assert(whole.contains(c)) by {
            assert(left.contains(c) || right.contains(c));
        }
        assert forall|x: Reading| #[trigger] whole.contains(x) implies le(c, x) by {
            if left.contains(x) {
                assert(le(a, x));
                if c != a {
                    assert(le(a, b) || le(b, a));
                    assert(le(b, a) && le(a, x));
                }
            } else {
                assert(le(b, x));
                if c != b {
                    assert(le(a, b) && le(b, x));
                }
            }
        }
        assert(is_least(c, whole, le));
        lemma_least_text(whole_text, whole, le, text, c);
    }
}

/// **The extremes of a split window are those of its parts.** Where the figures
/// take the least reading for the minimum and the greatest for the maximum, by
/// whatever order the values have, the minimum of the whole is the lesser of
/// the minima of the parts and its maximum the greater of their maxima; a part
/// without readings of the modality has no say.
pub proof fn law_split_window_keeps_extremes<F: Fn(&Vec<Reading>) -> Figures>(
    whole: Seq<(Seq<char>, StatsView)>,
    left: Seq<(Seq<char>, StatsView)>,
    right: Seq<(Seq<char>, StatsView)>,
    samples: Seq<EnvSample>,
    start_ns: u64,
    middle_ns: u64,
    end_ns: u64,
    fold: F,
    modality: Seq<char>,
    le: Order,
    text: spec_fn(Reading) -> Seq<char>,
)
    requires
        start_ns <= middle_ns <= end_ns,
        stats_of_window(whole, samples, start_ns, end_ns, fold),
        stats_of_window(left, samples, start_ns, middle_ns, fold),
        stats_of_window(right, samples, middle_ns, end_ns, fold),
        picks_extremes(fold, le, text),
        ranks(le, text),
    ensures
        match (entry_for(left, modality), entry_for(right, modality)) {
            (None, None) => entry_for(whole, modality) is None,
            (Some(l), None) => entry_for(whole, modality) matches Some(w) && w.min == l.min && w.max
                == l.max,
            (None, Some(r)) => entry_for(whole, modality) matches Some(w) && w.min == r.min && w.max
                == r.max,
            (Some(l), Some(r)) => {
                let before = readings_of(samples, start_ns, middle_ns, modality);
                let after = readings_of(samples, middle_ns, end_ns, modality);
                let ge = reversed(le);
                &&& entry_for(whole, modality) is Some
                &&& entry_for(whole, modality)->0.min == if le(
                    least_of(before, le),
                    least_of(after, le),
                ) {
                    l.min
                } else {
                    r.min
                }
                &&& entry_for(whole, modality)->0.max == if ge(
                    least_of(before, ge),
                    least_of(after, ge),
                ) {
                    l.max
                } else {
                    r.max
                }
            },
        },
{
    let all = readings_of(samples, start_ns, end_ns, modality);
    let before = readings_of(samples, start_ns, middle_ns, modality);
    let after = readings_of(samples, middle_ns, end_ns, modality);
    let ge = reversed(le);
    lemma_entry_extremes(whole, samples, start_ns, end_ns, fold, modality, le, text);
    lemma_entry_extremes(left, samples, start_ns, middle_ns, fold, modality, le, text);
    lemma_entry_extremes(right, samples, middle_ns, end_ns, fold, modality, le, text);
    lemma_split_readings(samples, start_ns, middle_ns, end_ns, modality);
    assert forall|x: Reading| #[trigger] all.contains(x) <==> (before.contains(x)
        || after.contains(x)) by {
        lemma_split_members(samples, start_ns, middle_ns, end_ns, modality, x);
    }
    assert(ranks(ge, text)) by {
        assert forall|a: Reading, b: Reading| #[trigger] ge(a, b) || ge(b, a) by {
            assert(le(b, a) || le(a, b));
        }
        assert forall|a: Reading, b: Reading, c: Reading| #[trigger]
            ge(a, b) && #[trigger] ge(b, c) implies ge(a, c) by {
            assert(le(c, b) && le(b, a));
        }
        assert forall|a: Reading, b: Reading| #[trigger] ge(a, b) && ge(b, a) implies text(a)
            == text(b) by {
            assert(le(b, a) && le(a, b));
        }
    }
    if all.len() > 0 {
        let w = entry_for(whole, modality)->0;
        let l = entry_for(left, modality)->0;
        let r = entry_for(right, modality)->0;
        lemma_least_of_parts(all, before, after, le, text, w.min, l.min, r.min);
        lemma_least_of_parts(all, before, after, ge, text, w.max, l.max, r.max);
    }
}

} // verus!

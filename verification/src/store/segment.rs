//! Segment files: their names, the directory listing, and what the names
//! promise about order.

use crate::text::{
    all_digits, chars_of, decimal, decimal_value, is_digit_char, lemma_digit_order,
    lemma_lex_asymmetric, lemma_lex_prefix, lemma_lex_suffix, lemma_lex_transitive,
    lemma_padded_decimal, lex_lt, padded_decimal, padded_decimal_text, parse_digits, relate, zeros,
    Relation,
};
use vstd::prelude::*;
use vstd::relations::{sorted_by, total_ordering};
use vstd::seq_lib::{group_to_multiset_ensures, lemma_sorted_unique};
use vstd::string::*;

verus! {

/// The ending of every segment file name.
pub open spec fn segment_suffix() -> Seq<char> {
    seq!['.', 'j', 's', 'o', 'n', 'l']
}

/// The segment file name made of a prefix and a string of digits.
pub open spec fn name_with_digits(prefix: Seq<char>, digits: Seq<char>) -> Seq<char> {
    prefix + seq!['-'] + digits + segment_suffix()
}

/// The name of segment number `index`: the prefix, a dash, the index with
/// leading zeros up to six digits, and the suffix.
pub open spec fn file_name(prefix: Seq<char>, index: u64) -> Seq<char> {
    name_with_digits(prefix, padded_decimal(index as nat, 6))
}

/// The part of a segment file name between the dash and the suffix.
pub open spec fn index_digits(name: Seq<char>, prefix: Seq<char>) -> Seq<char> {
    name.subrange(prefix.len() as int + 1, name.len() as int - 6)
}

/// Whether `name` is the prefix, a dash, at least one digit and the suffix.
pub open spec fn is_segment_name(name: Seq<char>, prefix: Seq<char>) -> bool {
    &&& name.len() >= prefix.len() + 8
    &&& name == name_with_digits(prefix, index_digits(name, prefix))
    &&& all_digits(index_digits(name, prefix))
}

/// The index that a file name carries: none if it is not the name of a
/// segment, or if the number does not fit 64 bits.
pub open spec fn segment_index(name: Seq<char>, prefix: Seq<char>) -> Option<u64> {
    let value = decimal_value(index_digits(name, prefix));
    if is_segment_name(name, prefix) && value <= u64::MAX {
        Some(value as u64)
    } else {
        None
    }
}

/// Segment file name for `index`.
pub fn segment_file_name(prefix: &str, index: u64) -> (name: String)
    ensures
        name@ == file_name(prefix@, index),
{
    proof {
        reveal_strlit(".jsonl");
    }
    let mut name = prefix.to_owned();
    name.push('-');
    let digits = padded_decimal_text(index, 6);
    name.append(&digits);
    name.append(".jsonl");
    assert(name@ =~= file_name(prefix@, index));
    name
}

/// Parse the numeric index out of a segment file name; `None` when the name
/// does not match the pattern.
pub fn parse_segment_index(name: &str, prefix: &str) -> (index: Option<u64>)
    ensures
        index == segment_index(name@, prefix@),
{
    let n = chars_of(name);
    let p = chars_of(prefix);
    if n.len() < 8 || p.len() > n.len() - 8 {
        return None;
    }
    let mut i: usize = 0;
    while i < p.len()
        invariant
            n@ == name@,
            p@ == prefix@,
            i <= p.len(),
            p.len() + 8 <= n.len(),
            forall|j: int| 0 <= j < i ==> n[j] == p[j],
        decreases p.len() - i,
    {
        if n[i] != p[i] {
            assert(name_with_digits(prefix@, index_digits(name@, prefix@))[i as int]
                == prefix@[i as int]);
            return None;
        }
        i += 1;
    }
    let ghost d = index_digits(name@, prefix@);
    let ghost whole = name_with_digits(prefix@, d);
    let from: usize = p.len() + 1;
    let to: usize = n.len() - 6;
    assert(whole[prefix@.len() as int] == '-');
    assert forall|k: int| 0 <= k < 6 implies whole[to + k] == segment_suffix()[k] by {}
    if n[p.len()] != '-' {
        return None;
    }
    if n[to] != '.' || n[to + 1] != 'j' || n[to + 2] != 's' || n[to + 3] != 'o' || n[to + 4] != 'n'
        || n[to + 5] != 'l' {
        assert(whole[to + 0] == '.' && whole[to + 1] == 'j' && whole[to + 2] == 's' && whole[to + 3]
            == 'o' && whole[to + 4] == 'n' && whole[to + 5] == 'l');
        return None;
    }
    assert(whole =~= name@) by {
        assert forall|k: int| 0 <= k < name@.len() implies whole[k] == name@[k] by {
            if k < prefix@.len() {
                assert(n[k] == p[k]);
            } else if k == prefix@.len() {
            } else if k < to {
            } else {
                let m = k - to;
                assert(whole[to + m] == segment_suffix()[m]);
                assert(m == 0 || m == 1 || m == 2 || m == 3 || m == 4 || m == 5);
            }
        }
    }
    let mut j: usize = from;
    while j < to
        invariant
            n@ == name@,
            from <= j <= to <= n.len(),
            d == n@.subrange(from as int, to as int),
            d == index_digits(name@, prefix@),
            forall|k: int| 0 <= k < j - from ==> is_digit_char(#[trigger] d[k]),
        decreases to - j,
    {
        let c: char = n[j];
        if !('0' <= c && c <= '9') {
            assert(!is_digit_char(d[j - from]));
            assert(!all_digits(d));
            return None;
        }
        j += 1;
    }
    parse_digits(&n, from, to)
}

/// Every index is found again in the name made of it.
pub proof fn law_name_carries_index(prefix: Seq<char>, index: u64)
    ensures
        segment_index(file_name(prefix, index), prefix) == Some(index),
{
    let digits = padded_decimal(index as nat, 6);
    lemma_padded_decimal(index as nat, 6);
    assert(index_digits(file_name(prefix, index), prefix) =~= digits);
}

/// A number below one million has at most six digits.
proof fn lemma_six_digits(n: nat)
    requires
        n < 1_000_000,
    ensures
        decimal(n).len() <= 6,
{
    reveal_with_fuel(decimal, 7);
}

/// Below one million, file names are in lexicographic order exactly as their
/// indexes are in numeric order.
pub proof fn law_name_order_is_numeric(prefix: Seq<char>, i: u64, j: u64)
    requires
        i < 1_000_000,
        j < 1_000_000,
    ensures
        lex_lt(file_name(prefix, i), file_name(prefix, j)) <==> i < j,
{
    lemma_name_order(prefix, i, j);
    lemma_name_order(prefix, j, i);
    if i < j {
    } else if j < i {
        lemma_lex_asymmetric(file_name(prefix, j), file_name(prefix, i));
    } else {
        crate::text::lemma_lex_irreflexive(file_name(prefix, i));
    }
}

proof fn lemma_name_order(prefix: Seq<char>, i: u64, j: u64)
    requires
        i < 1_000_000,
        j < 1_000_000,
    ensures
        i < j ==> lex_lt(file_name(prefix, i), file_name(prefix, j)),
{
    let a = padded_decimal(i as nat, 6);
    let b = padded_decimal(j as nat, 6);
    lemma_six_digits(i as nat);
    lemma_six_digits(j as nat);
    lemma_padded_decimal(i as nat, 6);
    lemma_padded_decimal(j as nat, 6);
    assert(a.len() == 6 && b.len() == 6);
    lemma_digit_order(a, b);
    if i < j {
        lemma_lex_suffix(a, b, segment_suffix(), segment_suffix());
        lemma_lex_prefix(prefix + seq!['-'], a + segment_suffix(), b + segment_suffix());
        assert(file_name(prefix, i) =~= (prefix + seq!['-']) + (a + segment_suffix()));
        assert(file_name(prefix, j) =~= (prefix + seq!['-']) + (b + segment_suffix()));
    }
}

// ---------------------------------------------------------------------------
// The directory listing
// ---------------------------------------------------------------------------

/// A listed segment: its name and the index the name carries.
pub type Listed = (Seq<char>, u64);

/// The order of the listing: by name, and by index under one name.
pub open spec fn listed_le(a: Listed, b: Listed) -> bool {
    lex_lt(a.0, b.0) || (a.0 == b.0 && a.1 <= b.1)
}

/// A listing as values.
pub open spec fn listing_view(listing: Seq<(String, u64)>) -> Seq<Listed> {
    listing.map_values(|e: (String, u64)| (e.0@, e.1))
}

/// The segments among the given file names, in the order given.
pub open spec fn segments_among(names: Seq<String>, prefix: Seq<char>) -> Seq<Listed>
    decreases names.len(),
{
    if names.len() == 0 {
        Seq::empty()
    } else {
        let rest = segments_among(names.drop_last(), prefix);
        match segment_index(names.last()@, prefix) {
            Some(index) => rest.push((names.last()@, index)),
            None => rest,
        }
    }
}

/// The listing of a directory: its segments, sorted by name.
pub open spec fn listing_of(names: Seq<String>, prefix: Seq<char>) -> Seq<Listed> {
    segments_among(names, prefix).sort_by(|a: Listed, b: Listed| listed_le(a, b))
}

/// The listing is sorted and holds the directory's segments, all of them and
/// nothing else.
pub proof fn law_listing(names: Seq<String>, prefix: Seq<char>)
    ensures
        sorted_by(listing_of(names, prefix), |a: Listed, b: Listed| listed_le(a, b)),
        listing_of(names, prefix).to_multiset() == segments_among(names, prefix).to_multiset(),
{
    lemma_listed_le_total();
    segments_among(names, prefix).lemma_sort_by_ensures(|a: Listed, b: Listed| listed_le(a, b));
}

/// The order of the listing is total.
pub proof fn lemma_listed_le_total()
    ensures
        total_ordering(|a: Listed, b: Listed| listed_le(a, b)),
{
    let r = |a: Listed, b: Listed| listed_le(a, b);
    assert forall|a: Listed, b: Listed| #[trigger] r(a, b) && #[trigger] r(b, a) implies a == b by {
        if lex_lt(a.0, b.0) {
            lemma_lex_asymmetric(a.0, b.0);
        }
        if lex_lt(b.0, a.0) {
            lemma_lex_asymmetric(b.0, a.0);
        }
    }
    assert forall|a: Listed, b: Listed, c: Listed| #[trigger] r(a, b) && #[trigger] r(b, c) implies r(
        a,
        c,
    ) by {
        if lex_lt(a.0, b.0) && lex_lt(b.0, c.0) {
            lemma_lex_transitive(a.0, b.0, c.0);
        }
    }
    assert forall|a: Listed, b: Listed| #[trigger] r(a, b) || #[trigger] r(b, a) by {
        crate::text::lemma_lex_connected(a.0, b.0);
    }
}

/// Every listed segment is one of the given names, with the index it carries.
pub proof fn lemma_listed_entry(names: Seq<String>, prefix: Seq<char>, i: int)
    requires
        0 <= i < listing_of(names, prefix).len(),
    ensures
        segment_index(listing_of(names, prefix)[i].0, prefix) == Some(
            listing_of(names, prefix)[i].1,
        ),
        exists|k: int| 0 <= k < names.len() && #[trigger] names[k]@ == listing_of(names, prefix)[i].0,
{
    let listing = listing_of(names, prefix);
    let among = segments_among(names, prefix);
    law_listing(names, prefix);
    vstd::seq_lib::to_multiset_contains(listing, listing[i]);
    vstd::seq_lib::to_multiset_contains(among, listing[i]);
    assert(listing.contains(listing[i]));
    let j = choose|j: int| 0 <= j < among.len() && among[j] == listing[i];
    lemma_among_entry(names, prefix, j);
}

proof fn lemma_among_entry(names: Seq<String>, prefix: Seq<char>, j: int)
    requires
        0 <= j < segments_among(names, prefix).len(),
    ensures
        segment_index(segments_among(names, prefix)[j].0, prefix) == Some(
            segments_among(names, prefix)[j].1,
        ),
        exists|k: int|
            0 <= k < names.len() && #[trigger] names[k]@ == segments_among(names, prefix)[j].0,
    decreases names.len(),
{
    let rest = names.drop_last();
    if j < segments_among(rest, prefix).len() {
        lemma_among_entry(rest, prefix, j);
        let k = choose|k: int|
            0 <= k < rest.len() && #[trigger] rest[k]@ == segments_among(rest, prefix)[j].0;
        assert(names[k]@ == segments_among(names, prefix)[j].0);
    } else {
        assert(names[names.len() - 1]@ == segments_among(names, prefix)[j].0);
    }
}

/// Put one more entry into a sorted listing.
fn insert_listed(listing: &mut Vec<(String, u64)>, name: String, index: u64)
    requires
        sorted_by(listing_view(old(listing)@), |a: Listed, b: Listed| listed_le(a, b)),
    ensures
        sorted_by(listing_view(final(listing)@), |a: Listed, b: Listed| listed_le(a, b)),
        listing_view(final(listing)@).to_multiset() == listing_view(
            old(listing)@,
        ).to_multiset().insert((name@, index)),
{
    let ghost le = |a: Listed, b: Listed| listed_le(a, b);
    let ghost before = listing_view(listing@);
    let ghost entry: Listed = (name@, index);
    proof {
        lemma_listed_le_total();
    }
    let mut i: usize = listing.len();
    while i > 0 && !entry_le(&listing[i - 1].0, listing[i - 1].1, &name, index)
        invariant
            i <= listing.len(),
            before == listing_view(listing@),
            entry == (name@, index),
            forall|j: int| i <= j < before.len() ==> !listed_le(#[trigger] before[j], entry),
        decreases i,
    {
        i -= 1;
    }
    listing.insert(i, (name, index));
    proof {
        let after = listing_view(listing@);
        assert(after =~= before.insert(i as int, entry));
        vstd::seq_lib::to_multiset_insert(before, i as int, entry);
        assert forall|x: int, y: int| 0 <= x <= y < after.len() implies le(after[x], after[y]) by {
            if x < i && y == i {
                let last = before[i - 1];
                assert(listed_le(last, entry));
                assert(le(before[x], last));
                assert(le(last, entry));
            } else if x == i && y > i {
                assert(!listed_le(before[y - 1], entry));
                assert(le(before[y - 1], entry) || le(entry, before[y - 1]));
            } else if x < i && y < i {
                assert(le(before[x], before[y]));
            } else if x < i && y > i {
                assert(le(before[x], before[y - 1]));
            } else if x > i && y > i {
                assert(le(before[x - 1], before[y - 1]));
            } else {
                assert(le(entry, entry));
            }
        }
    }
}

/// Whether one listed entry stands before another, or is the same.
fn entry_le(a: &String, i: u64, b: &String, j: u64) -> (le: bool)
    ensures
        le == listed_le((a@, i), (b@, j)),
{
    match relate(a, b) {
        Relation::Before => true,
        Relation::Same => i <= j,
        Relation::After => {
            proof {
                lemma_lex_asymmetric(b@, a@);
            }
            false
        },
    }
}

/// The segments among the file names of a directory, as `(name, index)`,
/// sorted by name. Names that do not match the pattern are ignored.
pub fn list_segments(names: &Vec<String>, prefix: &str) -> (listing: Vec<(String, u64)>)
    ensures
        listing_view(listing@) == listing_of(names@, prefix@),
{
    let mut listing: Vec<(String, u64)> = Vec::new();
    let mut i: usize = 0;
    assert(listing_view(listing@) =~= segments_among(names@.take(0), prefix@));
    while i < names.len()
        invariant
            i <= names.len(),
            sorted_by(listing_view(listing@), |a: Listed, b: Listed| listed_le(a, b)),
            listing_view(listing@).to_multiset() == segments_among(
                names@.take(i as int),
                prefix@,
            ).to_multiset(),
        decreases names.len() - i,
    {
        proof {
            broadcast use group_to_multiset_ensures;

            assert(names@.take(i + 1).drop_last() =~= names@.take(i as int));
            assert(names@.take(i + 1).last() == names[i as int]);
        }
        if let Some(index) = parse_segment_index(&names[i], prefix) {
            insert_listed(&mut listing, names[i].clone(), index);
        }
        i += 1;
    }
    proof {
        assert(names@.take(i as int) =~= names@);
        law_listing(names@, prefix@);
        law_listing_is_determined(listing_view(listing@), listing_of(names@, prefix@));
    }
    listing
}

/// The listing is determined: it is the one sorted arrangement of the
/// directory's segments.
pub proof fn law_listing_is_determined(a: Seq<Listed>, b: Seq<Listed>)
    requires
        sorted_by(a, |x: Listed, y: Listed| listed_le(x, y)),
        sorted_by(b, |x: Listed, y: Listed| listed_le(x, y)),
        a.to_multiset() == b.to_multiset(),
    ensures
        a == b,
{
    lemma_listed_le_total();
    lemma_sorted_unique(a, b, |x: Listed, y: Listed| listed_le(x, y));
}

} // verus!

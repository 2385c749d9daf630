//! What is read back of a file, and how files are named, numbered and listed,
//! said on the bytes and characters themselves.

use crate::error::StoreError;
use crate::store::events::{event_names, EventSegment};
use crate::store::lines::{
    computes, decoded_prefix, decodes_to, ends_clean, framed, lemma_one_more_line, line_spans,
    read_yields, span_bytes, utf8_fault,
};
use crate::store::load::{
    batch_of, last_items, load_yields, opened_prefix, repair_needed, served, Batch, Repair,
};
use crate::store::observations::{names_of, SegmentView};
use crate::store::segment::{
    file_name, index_digits, law_listing, listed_le, listing_of, name_with_digits, segment_index,
    segments_among, Listed,
};
use crate::text::{
    all_digits, decimal, decimal_value, is_digit_char, lemma_decimal, lemma_lex_asymmetric,
    lex_lt, lex_lt_at, padded_decimal, texts, zeros,
};
use vstd::prelude::*;
use vstd::relations::sorted_by;
use vstd::utf8::{decode_utf8, valid_utf8};

verus! {

// ---------------------------------------------------------------------------
// Files and lines
// ---------------------------------------------------------------------------

/// The lines one after the other, each with a newline behind it.
pub open spec fn joined(lines: Seq<Seq<u8>>) -> Seq<u8>
    decreases lines.len(),
{
    if lines.len() == 0 {
        Seq::empty()
    } else {
        joined(lines.drop_last()) + lines.last().push(10u8)
    }
}

/// No line holds a newline.
pub open spec fn single_lines(lines: Seq<Seq<u8>>) -> bool {
    forall|i: int, j: int|
        0 <= i < lines.len() && 0 <= j < lines[i].len() ==> #[trigger] lines[i][j] != 10u8
}

/// A file is the lines that were put into it.
proof fn lemma_spans_of_joined(lines: Seq<Seq<u8>>)
    requires
        single_lines(lines),
    ensures
        ends_clean(joined(lines)),
        line_spans(joined(lines)).len() == lines.len(),
        forall|i: int|
            0 <= i < lines.len() ==> span_bytes(
                joined(lines),
                #[trigger] line_spans(joined(lines))[i],
            ) == lines[i] && line_spans(joined(lines))[i].0 == joined(lines.take(i)).len(),
    decreases lines.len(),
{
    if lines.len() > 0 {
        let n = lines.len() - 1;
        let fewer = lines.drop_last();
        let bytes = joined(fewer);
        assert forall|i: int, j: int|
            0 <= i < fewer.len() && 0 <= j < fewer[i].len() implies #[trigger] fewer[i][j]
            != 10u8 by {
            assert(lines[i][j] != 10u8);
        }
        lemma_spans_of_joined(fewer);
        assert forall|j: int| 0 <= j < lines[n].len() implies #[trigger] lines[n][j] != 10u8 by {}
        lemma_one_more_line(bytes, lines[n], true);
        assert(framed(lines[n], true) == lines[n].push(10u8));
        assert forall|i: int| 0 <= i < lines.len() implies span_bytes(
            joined(lines),
            #[trigger] line_spans(joined(lines))[i],
        ) == lines[i] && line_spans(joined(lines))[i].0 == joined(lines.take(i)).len() by {
            if i < n {
                assert(line_spans(joined(lines))[i] == line_spans(bytes)[i]);
                assert(fewer.take(i) =~= lines.take(i));
            } else {
                assert(lines.take(n) =~= fewer);
            }
        }
    }
}

/// The lines of a file of whole lines with, at its end, one that lacks its
/// newline, where that is not empty.
pub open spec fn lines_with_tail(lines: Seq<Seq<u8>>, tail: Seq<u8>) -> Seq<Seq<u8>> {
    if tail.len() == 0 {
        lines
    } else {
        lines.push(tail)
    }
}

/// A file is the lines that were put into it, also where its last newline is
/// missing.
proof fn lemma_spans_of_file(lines: Seq<Seq<u8>>, tail: Seq<u8>)
    requires
        single_lines(lines_with_tail(lines, tail)),
    ensures
        ({
            let file = joined(lines) + tail;
            let all = lines_with_tail(lines, tail);
            &&& line_spans(file).len() == all.len()
            &&& forall|i: int|
                0 <= i < all.len() ==> span_bytes(file, #[trigger] line_spans(file)[i]) == all[i]
                    && line_spans(file)[i].0 == joined(all.take(i)).len()
        }),
{
    let file = joined(lines) + tail;
    let all = lines_with_tail(lines, tail);
    assert forall|i: int, j: int|
        0 <= i < lines.len() && 0 <= j < lines[i].len() implies #[trigger] lines[i][j] != 10u8 by {
        assert(all[i][j] != 10u8);
    }
    lemma_spans_of_joined(lines);
    if tail.len() == 0 {
        assert(file =~= joined(lines));
    } else {
        let n = lines.len() as int;
        assert forall|j: int| 0 <= j < tail.len() implies #[trigger] tail[j] != 10u8 by {
            assert(all[n][j] != 10u8);
        }
        lemma_one_more_line(joined(lines), tail, false);
        assert forall|i: int| 0 <= i < all.len() implies span_bytes(
            file,
            #[trigger] line_spans(file)[i],
        ) == all[i] && line_spans(file)[i].0 == joined(all.take(i)).len() by {
            if i < n {
                assert(line_spans(file)[i] == line_spans(joined(lines))[i]);
                assert(all.take(i) =~= lines.take(i));
            } else {
                assert(all.take(n) =~= lines);
            }
        }
    }
}

/// What decoding one line comes to.
proof fn lemma_decoding<T, F: Fn(&str) -> Result<T, String>>(
    parse: F,
    p: spec_fn(Seq<char>) -> Result<T, String>,
    line: Seq<u8>,
    outcome: Result<T, String>,
)
    requires
        computes(parse, p),
        decodes_to(parse, line, outcome),
    ensures
        valid_utf8(line) ==> outcome == p(decode_utf8(line)),
        !valid_utf8(line) ==> outcome is Err && outcome->Err_0@ == utf8_fault(line),
{
}

/// **A file is read as the lines that were written into it.** Lines that all
/// decode, each followed by a newline, the last one perhaps not, are read as
/// their records in order, one each, and the file keeps its size.
pub proof fn law_lines_are_read_back<T, F: Fn(&str) -> Result<T, String>>(
    lines: Seq<Seq<u8>>,
    tail: Seq<u8>,
    name: Seq<char>,
    repair_torn_tail: bool,
    parse: F,
    p: spec_fn(Seq<char>) -> Result<T, String>,
    result: Result<(Vec<T>, u64), StoreError>,
)
    requires
        computes(parse, p),
        single_lines(lines_with_tail(lines, tail)),
        forall|i: int|
            0 <= i < lines_with_tail(lines, tail).len() ==> valid_utf8(
                #[trigger] lines_with_tail(lines, tail)[i],
            ) && p(decode_utf8(lines_with_tail(lines, tail)[i])) is Ok,
        read_yields(joined(lines) + tail, name, repair_torn_tail, parse, result),
    ensures
        result is Ok,
        result->Ok_0.0@.len() == lines_with_tail(lines, tail).len(),
        forall|i: int|
            0 <= i < lines_with_tail(lines, tail).len() ==> p(
                decode_utf8(lines_with_tail(lines, tail)[i]),
            ) == Ok::<T, String>(#[trigger] result->Ok_0.0@[i]),
        result->Ok_0.1 == joined(lines).len() + tail.len(),
{
    let file = joined(lines) + tail;
    let all = lines_with_tail(lines, tail);
    let spans = line_spans(file);
    lemma_spans_of_file(lines, tail);
    match result {
        Ok((records, size)) => {
            if records@.len() != spans.len() {
                let last = spans.len() - 1;
                let reason = choose|reason: String| #[trigger]
                    decodes_to(parse, span_bytes(file, spans.last()), Err::<T, String>(reason));
                assert(span_bytes(file, spans[last]) == all[last]);
                lemma_decoding(parse, p, all[last], Err::<T, String>(reason));
            }
            assert forall|i: int| 0 <= i < all.len() implies p(decode_utf8(all[i])) == Ok::<
                T,
                String,
            >(#[trigger] result->Ok_0.0@[i]) by {
                assert(decodes_to(parse, span_bytes(file, spans[i]), Ok::<T, String>(records@[i])));
                lemma_decoding(parse, p, all[i], Ok::<T, String>(records@[i]));
            }
        },
        Err(StoreError::Corrupt { segment, line, reason }) => {
            assert(span_bytes(file, spans[line - 1]) == all[line - 1]);
            lemma_decoding(parse, p, all[line - 1], Err::<T, String>(reason));
        },
        Err(_) => {},
    }
}

/// **The first line that does not decode decides.** Where it is the last one and
/// a torn tail is repaired, the records in front of it are read, and the file
/// is to be cut back to the bytes in front of it. Anywhere else, and without
/// repair everywhere, the file is corrupt: the error names the file, the line,
/// counted from one, and the decoder's own reason.
pub proof fn law_first_bad_line_decides<T, F: Fn(&str) -> Result<T, String>>(
    lines: Seq<Seq<u8>>,
    tail: Seq<u8>,
    bad: int,
    name: Seq<char>,
    repair_torn_tail: bool,
    parse: F,
    p: spec_fn(Seq<char>) -> Result<T, String>,
    result: Result<(Vec<T>, u64), StoreError>,
)
    requires
        computes(parse, p),
        single_lines(lines_with_tail(lines, tail)),
        0 <= bad < lines_with_tail(lines, tail).len(),
        forall|i: int|
            0 <= i < bad ==> valid_utf8(#[trigger] lines_with_tail(lines, tail)[i]) && p(
                decode_utf8(lines_with_tail(lines, tail)[i]),
            ) is Ok,
        !valid_utf8(lines_with_tail(lines, tail)[bad]) || p(
            decode_utf8(lines_with_tail(lines, tail)[bad]),
        ) is Err,
        read_yields(joined(lines) + tail, name, repair_torn_tail, parse, result),
    ensures
        ({
            let all = lines_with_tail(lines, tail);
            if repair_torn_tail && bad == all.len() - 1 {
                &&& result is Ok
                &&& result->Ok_0.0@.len() == bad
                &&& forall|i: int|
                    0 <= i < bad ==> p(decode_utf8(all[i])) == Ok::<T, String>(
                        #[trigger] result->Ok_0.0@[i],
                    )
                &&& result->Ok_0.1 == joined(all.take(bad)).len()
            } else {
                &&& result matches Err(StoreError::Corrupt { segment, line, reason })
                &&& segment@ == name
                &&& line == bad + 1
                &&& valid_utf8(all[bad]) ==> p(decode_utf8(all[bad])) == Err::<T, String>(reason)
                &&& !valid_utf8(all[bad]) ==> reason@ == utf8_fault(all[bad])
            }
        }),
{
    let file = joined(lines) + tail;
    let all = lines_with_tail(lines, tail);
    let spans = line_spans(file);
    lemma_spans_of_file(lines, tail);
    assert(span_bytes(file, spans[bad]) == all[bad]);
    match result {
        Ok((records, size)) => {
            if bad < records@.len() {
                assert(decodes_to(
                    parse,
                    span_bytes(file, spans[bad]),
                    Ok::<T, String>(records@[bad]),
                ));
                lemma_decoding(parse, p, all[bad], Ok::<T, String>(records@[bad]));
            }
            assert(records@.len() + 1 == spans.len() && bad == all.len() - 1);
            assert forall|i: int| 0 <= i < bad implies p(decode_utf8(all[i])) == Ok::<T, String>(
                #[trigger] result->Ok_0.0@[i],
            ) by {
                assert(decodes_to(parse, span_bytes(file, spans[i]), Ok::<T, String>(records@[i])));
                assert(span_bytes(file, spans[i]) == all[i]);
                lemma_decoding(parse, p, all[i], Ok::<T, String>(records@[i]));
            }
        },
        Err(StoreError::Corrupt { segment, line, reason }) => {
            assert(span_bytes(file, spans[line - 1]) == all[line - 1]);
            lemma_decoding(parse, p, all[line - 1], Err::<T, String>(reason));
            if line - 1 > bad {
                let prefix = choose|prefix: Seq<T>|
                    prefix.len() == line - 1 && #[trigger] decoded_prefix(parse, file, prefix);
                assert(decodes_to(
                    parse,
                    span_bytes(file, spans[bad]),
                    Ok::<T, String>(prefix[bad]),
                ));
                lemma_decoding(parse, p, all[bad], Ok::<T, String>(prefix[bad]));
            }
        },
        Err(_) => {},
    }
}

/// **What is known of a loaded file**: that its tail is torn where it is to be
/// cut back, and that a newline is lacking where what is left ends in another
/// byte.
pub proof fn law_loaded_file_on_bytes<T, F: Fn(&str) -> Result<T, String>>(
    bytes: Seq<u8>,
    name: Seq<char>,
    repair_torn_tail: bool,
    parse: F,
    batch: Batch<T>,
)
    requires
        batch_of(bytes, name, repair_torn_tail, parse, batch),
        batch.size <= bytes.len(),
    ensures
        batch.torn <==> batch.size < bytes.len(),
        batch.unterminated <==> batch.size > 0 && bytes[batch.size - 1] != 10u8,
        !repair_torn_tail ==> !batch.torn,
{
}

/// **Only the last file is repaired** on opening.
pub proof fn law_only_the_last_file_is_repaired<
    T,
    R: Fn(&String) -> Result<Vec<u8>, StoreError>,
    F: Fn(&str) -> Result<T, String>,
>(listing: Seq<Listed>, read: R, parse: F, batches: Seq<Batch<T>>, i: int)
    requires
        opened_prefix(listing, read, parse, batches),
        0 <= i < batches.len(),
    ensures
        load_yields(listing[i].0, i == listing.len() - 1, read, parse, Ok(batches[i])),
        i < listing.len() - 1 ==> !batches[i].torn,
{
    assert(load_yields(listing[i].0, i + 1 == listing.len(), read, parse, Ok(batches[i])));
    if i < listing.len() - 1 {
        let bytes = choose|bytes: Seq<u8>| #[trigger]
            served(read, listing[i].0, bytes) && batch_of(
                bytes,
                listing[i].0,
                i + 1 == listing.len(),
                parse,
                batches[i],
            );
        assert(batch_of(bytes, listing[i].0, false, parse, batches[i]));
    }
}

/// **What is to be cut back on opening**: the last file, to the size that was
/// found good, where its tail is torn; and nothing else.
pub proof fn law_repair_is_of_the_last_file<T>(
    listing: Seq<Listed>,
    batches: Seq<Batch<T>>,
    repair: Option<Repair>,
)
    requires
        repair_needed(listing, batches, repair),
        batches.len() == listing.len(),
    ensures
        repair is Some <==> batches.len() > 0 && batches[batches.len() - 1].torn,
        repair is Some ==> repair->0.segment@ == listing[listing.len() - 1].0,
        repair is Some ==> repair->0.size == batches[batches.len() - 1].size,
{
}

/// **The most recent records are the last ones**: as many as were asked for, or
/// all there are, in the order in which they were appended.
pub proof fn law_recent_is_the_end<T>(all: Seq<T>, limit: nat, i: int)
    ensures
        ({
            let recent = last_items(all, limit);
            &&& all.len() >= limit ==> recent.len() == limit
            &&& all.len() < limit ==> recent.len() == all.len()
            &&& 0 <= i < recent.len() ==> recent[i] == all[all.len() - recent.len() + i]
        }),
{
}

// ---------------------------------------------------------------------------
// Names and numbers
// ---------------------------------------------------------------------------

/// **Names and texts are told one by one, in order.**
pub proof fn law_names_are_told_in_order(
    segments: Seq<SegmentView>,
    events: Seq<EventSegment>,
    strings: Seq<String>,
    i: int,
)
    ensures
        names_of(segments).len() == segments.len(),
        0 <= i < segments.len() ==> names_of(segments)[i] == segments[i].name,
        event_names(events).len() == events.len(),
        0 <= i < events.len() ==> event_names(events)[i] == events[i].name,
        texts(strings).len() == strings.len(),
        0 <= i < strings.len() ==> texts(strings)[i] == strings[i]@,
{
}

/// **Numerals are written in base ten**, the highest digit first and without
/// leading zeros; with leading zeros up to a width where one is asked for.
pub proof fn law_numerals_are_decimal(n: nat, d: nat, width: int)
    requires
        d < 10,
    ensures
        decimal(d) == seq![(48 + d) as char],
        n > 0 ==> decimal(10 * n + d) == decimal(n).push((48 + d) as char),
        n > 0 ==> decimal(n)[0] != '0',
        width > decimal(n).len() ==> padded_decimal(n, width).len() == width,
        width <= decimal(n).len() ==> padded_decimal(n, width) == decimal(n),
        forall|i: int|
            0 <= i < width - decimal(n).len() ==> #[trigger] padded_decimal(n, width)[i] == '0',
        padded_decimal(n, width).skip(padded_decimal(n, width).len() - decimal(n).len()) == decimal(
            n,
        ),
    decreases n,
{
    if n > 0 {
        assert((10 * n + d) / 10 == n && (10 * n + d) % 10 == d);
        if n >= 10 {
            law_numerals_are_decimal(n / 10, n % 10, width);
            lemma_decimal(n / 10);
        }
    }
    let pad = zeros(width - decimal(n).len());
    assert((pad + decimal(n)).skip(pad.len() as int) =~= decimal(n));
    if width <= decimal(n).len() {
        assert(pad + decimal(n) =~= decimal(n));
    }
}

/// **Digits are read in base ten.**
pub proof fn law_digits_are_decimal(s: Seq<char>, c: char)
    requires
        '0' <= c && c <= '9',
    ensures
        decimal_value(Seq::empty()) == 0,
        decimal_value(s.push(c)) == 10 * decimal_value(s) + (c as u32 - 48),
        all_digits(s.push(c)) <==> all_digits(s),
{
    assert(s.push(c).drop_last() =~= s);
    if all_digits(s.push(c)) {
        assert forall|i: int| 0 <= i < s.len() implies is_digit_char(#[trigger] s[i]) by {
            assert(s.push(c)[i] == s[i]);
        }
    }
}

/// **How a segment file is named**: the prefix, a dash, the number with at least
/// six digits, and the ending.
pub proof fn law_segment_files_are_named(prefix: Seq<char>, index: u64)
    ensures
        file_name(prefix, index) == prefix + seq!['-'] + padded_decimal(index as nat, 6) + seq![
            '.',
            'j',
            's',
            'o',
            'n',
            'l',
        ],
{
}

/// **Which file names are segments**: those made of the prefix, a dash, at least
/// one digit and nothing but digits, and the ending, where the number fits
/// 64 bits; the number is the index.
pub proof fn law_segment_names_are(name: Seq<char>, prefix: Seq<char>, digits: Seq<char>)
    ensures
        name == prefix + seq!['-'] + digits + seq!['.', 'j', 's', 'o', 'n', 'l'] && digits.len()
            > 0 && (forall|i: int|
            0 <= i < digits.len() ==> '0' <= #[trigger] digits[i] && digits[i] <= '9')
            ==> segment_index(name, prefix) == if decimal_value(digits) <= u64::MAX {
            Some(decimal_value(digits) as u64)
        } else {
            None
        },
        segment_index(name, prefix) is Some ==> exists|d: Seq<char>|
            {
                &&& name == #[trigger] name_with_digits(prefix, d)
                &&& name == prefix + seq!['-'] + d + seq!['.', 'j', 's', 'o', 'n', 'l']
                &&& d.len() > 0
                &&& forall|i: int| 0 <= i < d.len() ==> '0' <= #[trigger] d[i] && d[i] <= '9'
                &&& decimal_value(d) == segment_index(name, prefix)->0
            },
{
    if name == prefix + seq!['-'] + digits + seq!['.', 'j', 's', 'o', 'n', 'l'] && digits.len() > 0
        && (forall|i: int|
        0 <= i < digits.len() ==> '0' <= #[trigger] digits[i] && digits[i] <= '9') {
        assert(index_digits(name, prefix) =~= digits);
        assert(name == name_with_digits(prefix, digits));
        assert forall|i: int| 0 <= i < digits.len() implies is_digit_char(
            #[trigger] digits[i],
        ) by {}
    }
    if segment_index(name, prefix) is Some {
        let d = index_digits(name, prefix);
        assert(name == name_with_digits(prefix, d));
        assert forall|i: int| 0 <= i < d.len() implies '0' <= #[trigger] d[i] && d[i]
            <= '9' by {
            assert(is_digit_char(d[i]));
        }
    }
}

/// **The order of texts**: what they have in common counts for nothing, the
/// first character that differs decides, and a text comes before its own
/// continuations.
pub proof fn law_first_difference_orders(
    common: Seq<char>,
    c: char,
    d: char,
    s: Seq<char>,
    t: Seq<char>,
)
    ensures
        (c as u32) < (d as u32) ==> lex_lt(common + seq![c] + s, common + seq![d] + t),
        (c as u32) < (d as u32) ==> !lex_lt(common + seq![d] + t, common + seq![c] + s),
        lex_lt(common, common + seq![c] + s),
        !lex_lt(common + seq![c] + s, common),
        !lex_lt(common, common),
{
    let k = common.len() as int;
    let a = common + seq![c] + s;
    let b = common + seq![d] + t;
    if (c as u32) < (d as u32) {
        assert(a[k] == c && b[k] == d);
        assert(lex_lt_at(a, b, k));
        lemma_lex_asymmetric(a, b);
    }
    assert(lex_lt_at(common, a, k));
    lemma_lex_asymmetric(common, a);
    crate::text::lemma_lex_irreflexive(common);
}

/// What is among the segments of a directory.
proof fn lemma_among_names(names: Seq<String>, prefix: Seq<char>, entry: Listed)
    ensures
        segments_among(names, prefix).contains(entry) <==> segment_index(entry.0, prefix) == Some(
            entry.1,
        ) && exists|k: int| 0 <= k < names.len() && #[trigger] names[k]@ == entry.0,
    decreases names.len(),
{
    if names.len() > 0 {
        let n = names.len() - 1;
        let fewer = names.drop_last();
        let rest = segments_among(fewer, prefix);
        let all = segments_among(names, prefix);
        lemma_among_names(fewer, prefix, entry);
        if all.contains(entry) {
            let j = choose|j: int| 0 <= j < all.len() && all[j] == entry;
            if j < rest.len() {
                assert(rest[j] == entry);
                assert(rest.contains(entry));
                let k = choose|k: int| 0 <= k < fewer.len() && #[trigger] fewer[k]@ == entry.0;
                assert(names[k]@ == entry.0);
            } else {
                assert(names[n]@ == entry.0);
            }
        }
        if segment_index(entry.0, prefix) == Some(entry.1) && exists|k: int|
            0 <= k < names.len() && #[trigger] names[k]@ == entry.0 {
            let k = choose|k: int| 0 <= k < names.len() && #[trigger] names[k]@ == entry.0;
            if k < n {
                assert(fewer[k]@ == entry.0);
                let j = choose|j: int| 0 <= j < rest.len() && rest[j] == entry;
                assert(all[j] == entry);
            } else {
                assert(all[rest.len() as int] == entry);
            }
        }
    }
}

/// **What a directory lists**: each of its files that is named as a segment,
/// with its number, and no other, in the order of the names.
pub proof fn law_directory_lists_its_segments(
    names: Seq<String>,
    prefix: Seq<char>,
    entry: Listed,
    i: int,
    j: int,
)
    ensures
        listing_of(names, prefix).contains(entry) <==> segment_index(entry.0, prefix) == Some(
            entry.1,
        ) && exists|k: int| 0 <= k < names.len() && #[trigger] names[k]@ == entry.0,
        0 <= i < j < listing_of(names, prefix).len() ==> lex_lt(
            listing_of(names, prefix)[i].0,
            listing_of(names, prefix)[j].0,
        ) || listing_of(names, prefix)[i].0 == listing_of(names, prefix)[j].0,
{
    let listing = listing_of(names, prefix);
    let among = segments_among(names, prefix);
    law_listing(names, prefix);
    lemma_among_names(names, prefix, entry);
    vstd::seq_lib::to_multiset_contains(listing, entry);
    vstd::seq_lib::to_multiset_contains(among, entry);
    if 0 <= i < j < listing.len() {
        let le = |a: Listed, b: Listed| listed_le(a, b);
        assert(sorted_by(listing, le));
        assert(le(listing[i], listing[j]));
    }
}

} // verus!

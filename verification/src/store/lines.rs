//! Reading a segment file: one record per line, with repair of a torn tail.

use crate::error::StoreError;
use vstd::prelude::*;
use vstd::slice::slice_subrange;
use vstd::utf8::{decode_utf8, valid_utf8};

verus! {

/// The text of the error that `std::str::from_utf8` gives for these bytes,
/// which are not UTF-8.
pub uninterp spec fn utf8_fault(bytes: Seq<u8>) -> Seq<char>;

/// `std::str::from_utf8` succeeds exactly on valid UTF-8, and then gives the
/// characters that the bytes encode; the text of its error depends on the
/// bytes alone.
#[verifier::external_body]
fn utf8_text(bytes: &[u8]) -> (text: Result<&str, String>)
    ensures
        text is Ok <==> valid_utf8(bytes@),
        text matches Ok(s) ==> s@ == decode_utf8(bytes@),
        text matches Err(reason) ==> reason@ == utf8_fault(bytes@),
{
    match std::str::from_utf8(bytes) {
        Ok(s) => Ok(s),
        Err(e) => Err(e.to_string()),
    }
}

/// The byte that ends a line.
pub const NEWLINE: u8 = 10;

/// Where the line that starts at `from` ends: at the next newline, or with
/// the bytes.
pub open spec fn line_end(bytes: Seq<u8>, from: int) -> int
    decreases bytes.len() - from,
{
    if from >= bytes.len() {
        bytes.len() as int
    } else if bytes[from] == NEWLINE {
        from
    } else {
        line_end(bytes, from + 1)
    }
}

/// The lines from `from` on, each as where it starts and where it ends.
pub open spec fn spans_from(bytes: Seq<u8>, from: int) -> Seq<(int, int)>
    decreases bytes.len() + 1 - from,
{
    if from < 0 || from >= bytes.len() {
        Seq::empty()
    } else {
        proof {
            lemma_line_end(bytes, from);
        }
        let end = line_end(bytes, from);
        seq![(from, end)] + spans_from(bytes, end + 1)
    }
}

/// The lines of a file.
pub open spec fn line_spans(bytes: Seq<u8>) -> Seq<(int, int)> {
    spans_from(bytes, 0)
}

/// The bytes of one line.
pub open spec fn span_bytes(bytes: Seq<u8>, span: (int, int)) -> Seq<u8> {
    bytes.subrange(span.0, span.1)
}

/// `outcome` can come out of decoding one line: the decoder's answer on the
/// text of the line, or what is wrong with the line where it is not UTF-8.
pub open spec fn decodes_to<T, F: Fn(&str) -> Result<T, String>>(
    parse: F,
    line: Seq<u8>,
    outcome: Result<T, String>,
) -> bool {
    if valid_utf8(line) {
        exists|s: &str| s@ == decode_utf8(line) && #[trigger] call_ensures(parse, (s,), outcome)
    } else {
        outcome is Err && outcome->Err_0@ == utf8_fault(line)
    }
}

/// The first lines of the file decode to `records`, one each.
pub open spec fn decoded_prefix<T, F: Fn(&str) -> Result<T, String>>(
    parse: F,
    bytes: Seq<u8>,
    records: Seq<T>,
) -> bool {
    let spans = line_spans(bytes);
    &&& records.len() <= spans.len()
    &&& forall|i: int|
        0 <= i < records.len() ==> decodes_to(
            parse,
            span_bytes(bytes, #[trigger] spans[i]),
            Ok(records[i]),
        )
}

/// `result` is what reading the file owes:
///
/// - every line decodes: all the records, and the size of the file;
/// - the last line alone does not decode and a torn tail is repaired: the
///   records before it, and the size without it;
/// - otherwise the first line that does not decode is reported, with its
///   number and the reason.
pub open spec fn read_yields<T, F: Fn(&str) -> Result<T, String>>(
    bytes: Seq<u8>,
    name: Seq<char>,
    repair_torn_tail: bool,
    parse: F,
    result: Result<(Vec<T>, u64), StoreError>,
) -> bool {
    let spans = line_spans(bytes);
    match result {
        Ok((records, size)) => {
            &&& decoded_prefix(parse, bytes, records@)
            &&& {
                ||| records@.len() == spans.len() && size == bytes.len()
                ||| {
                    &&& repair_torn_tail
                    &&& records@.len() + 1 == spans.len()
                    &&& size == spans.last().0
                    &&& exists|reason: String| #[trigger]
                        decodes_to(parse, span_bytes(bytes, spans.last()), Err(reason))
                }
            }
        },
        Err(StoreError::Corrupt { segment, line, reason }) => {
            &&& segment@ == name
            &&& 1 <= line <= spans.len()
            &&& !(repair_torn_tail && line == spans.len())
            &&& decodes_to(parse, span_bytes(bytes, spans[line - 1]), Err(reason))
            &&& exists|before: Seq<T>|
                before.len() == line - 1 && #[trigger] decoded_prefix(parse, bytes, before)
        },
        Err(_) => false,
    }
}

/// A line ends at or after its start, within the bytes, and holds no newline.
pub proof fn lemma_line_end(bytes: Seq<u8>, from: int)
    requires
        0 <= from <= bytes.len(),
    ensures
        from <= line_end(bytes, from) <= bytes.len(),
        forall|k: int| from <= k < line_end(bytes, from) ==> bytes[k] != NEWLINE,
        line_end(bytes, from) < bytes.len() ==> bytes[line_end(bytes, from)] == NEWLINE,
    decreases bytes.len() - from,
{
    if from < bytes.len() && bytes[from] != NEWLINE {
        lemma_line_end(bytes, from + 1);
    }
}

/// Where the next newline is decides where the line ends.
pub proof fn lemma_line_end_at(bytes: Seq<u8>, from: int, end: int)
    requires
        0 <= from <= end <= bytes.len(),
        forall|k: int| from <= k < end ==> bytes[k] != NEWLINE,
        end < bytes.len() ==> bytes[end] == NEWLINE,
    ensures
        line_end(bytes, from) == end,
    decreases end - from,
{
    if from < end {
        lemma_line_end_at(bytes, from + 1, end);
    }
}

/// Decode one line.
fn decode_line<T, F: Fn(&str) -> Result<T, String>>(line: &[u8], parse: &F) -> (outcome: Result<
    T,
    String,
>)
    requires
        forall|s: &str| #[trigger] call_requires(*parse, (s,)),
    ensures
        decodes_to(*parse, line@, outcome),
{
    match utf8_text(line) {
        Ok(s) => parse(s),
        Err(reason) => Err(reason),
    }
}

/// Read one segment file, decoding each line with `parse`. Gives the records
/// and the size the file has after any repair.
///
/// With `repair_torn_tail` set (recovery of the *last* segment only), a
/// **final** line that does not decode is taken for a torn write and left
/// out. Any other line that does not decode is [`StoreError::Corrupt`].
pub fn read_segment<T, F: Fn(&str) -> Result<T, String>>(
    bytes: &[u8],
    name: &str,
    repair_torn_tail: bool,
    parse: &F,
) -> (result: Result<(Vec<T>, u64), StoreError>)
    requires
        forall|s: &str| #[trigger] call_requires(*parse, (s,)),
    ensures
        read_yields(bytes@, name@, repair_torn_tail, *parse, result),
{
    let mut records: Vec<T> = Vec::new();
    let mut offset: usize = 0;
    let mut line_no: usize = 0;
    let ghost spans = line_spans(bytes@);
    while offset < bytes.len()
        invariant
            spans == line_spans(bytes@),
            line_no == records@.len(),
            line_no <= offset,
            offset <= bytes.len(),
            spans == spans.take(line_no as int) + spans_from(bytes@, offset as int),
            line_no <= spans.len(),
            decoded_prefix(*parse, bytes@, records@),
            forall|s: &str| #[trigger] call_requires(*parse, (s,)),
        decreases bytes.len() - offset,
    {
        proof {
            lemma_line_end(bytes@, offset as int);
        }
        let end = find_line_end(bytes, offset);
        proof {
            let tail = spans_from(bytes@, offset as int);
            assert(tail == seq![(offset as int, end as int)] + spans_from(bytes@, end + 1));
            assert(spans[line_no as int] == tail[0]);
            assert(spans.take(line_no + 1) =~= spans.take(line_no as int).push(
                (offset as int, end as int),
            ));
            assert(spans =~= spans.take(line_no + 1) + spans_from(bytes@, end + 1));
        }
        line_no += 1;
        match decode_line(slice_subrange(bytes, offset, end), parse) {
            Ok(record) => {
                let ghost before = records@;
                records.push(record);
                proof {
                    assert forall|i: int| 0 <= i < records@.len() implies decodes_to(
                        *parse,
                        span_bytes(bytes@, #[trigger] spans[i]),
                        Ok(records@[i]),
                    ) by {
                        if i < before.len() {
                            assert(before[i] == records@[i]);
                        }
                    }
                }
            },
            Err(reason) => {
                let is_final_line = end >= bytes.len() - 1;
                proof {
                    let rest = spans_from(bytes@, end + 1);
                    assert(is_final_line <==> line_no == spans.len()) by {
                        if !is_final_line {
                            lemma_line_end(bytes@, end + 1);
                            assert(rest.len() > 0);
                        }
                    }
                }
                if repair_torn_tail && is_final_line {
                    assert(decodes_to(
                        *parse,
                        span_bytes(bytes@, spans.last()),
                        Err::<T, String>(reason),
                    ));
                    return Ok((records, offset as u64));
                }
                assert(decoded_prefix(*parse, bytes@, records@));
                return Err(
                    StoreError::Corrupt { segment: name.to_owned(), line: line_no, reason },
                );
            },
        }
        offset = if end < bytes.len() {
            end + 1
        } else {
            end
        };
    }
    assert(spans =~= spans.take(line_no as int));
    Ok((records, bytes.len() as u64))
}

/// Where the line that starts at `from` ends.
fn find_line_end(bytes: &[u8], from: usize) -> (end: usize)
    requires
        from <= bytes.len(),
    ensures
        end == line_end(bytes@, from as int),
        from <= end <= bytes.len(),
{
    let mut end: usize = from;
    while end < bytes.len() && bytes[end] != NEWLINE
        invariant
            from <= end <= bytes.len(),
            forall|k: int| from <= k < end ==> bytes[k] != NEWLINE,
        decreases bytes.len() - end,
    {
        end += 1;
    }
    proof {
        lemma_line_end_at(bytes@, from as int, end as int);
    }
    end
}

// ---------------------------------------------------------------------------
// What a file reads back as
// ---------------------------------------------------------------------------

/// `parse` computes the function `p`.
pub open spec fn computes<T, F: Fn(&str) -> Result<T, String>>(
    parse: F,
    p: spec_fn(Seq<char>) -> Result<T, String>,
) -> bool {
    forall|s: &str, r: Result<T, String>| #[trigger] call_ensures(parse, (s,), r) ==> r == p(s@)
}

/// One line decodes to `record`.
pub open spec fn line_reads_as<T>(
    line: Seq<u8>,
    p: spec_fn(Seq<char>) -> Result<T, String>,
    record: T,
) -> bool {
    valid_utf8(line) && p(decode_utf8(line)) == Ok::<T, String>(record)
}

/// The lines of the file decode to `records`, one each.
pub open spec fn reads_as<T>(
    bytes: Seq<u8>,
    p: spec_fn(Seq<char>) -> Result<T, String>,
    records: Seq<T>,
) -> bool {
    let spans = line_spans(bytes);
    &&& spans.len() == records.len()
    &&& forall|i: int|
        0 <= i < spans.len() ==> line_reads_as(
            span_bytes(bytes, #[trigger] spans[i]),
            p,
            records[i],
        )
}

/// The file is empty or ends with a newline.
pub open spec fn ends_clean(bytes: Seq<u8>) -> bool {
    bytes.len() == 0 || bytes.last() == NEWLINE
}

/// No newline occurs in the line.
pub open spec fn is_one_line(line: Seq<u8>) -> bool {
    forall|i: int| 0 <= i < line.len() ==> #[trigger] line[i] != NEWLINE
}

/// Spans lie within the bytes.
pub proof fn lemma_spans_within(bytes: Seq<u8>, from: int)
    requires
        0 <= from,
    ensures
        forall|i: int|
            0 <= i < spans_from(bytes, from).len() ==> {
                let span = #[trigger] spans_from(bytes, from)[i];
                from <= span.0 <= span.1 <= bytes.len()
            },
    decreases bytes.len() + 1 - from,
{
    if from < bytes.len() {
        let end = line_end(bytes, from);
        lemma_line_end(bytes, from);
        lemma_spans_within(bytes, end + 1);
        let rest = spans_from(bytes, end + 1);
        assert forall|i: int| 0 <= i < spans_from(bytes, from).len() implies {
            let span = #[trigger] spans_from(bytes, from)[i];
            from <= span.0 <= span.1 <= bytes.len()
        } by {
            if i > 0 {
                assert(spans_from(bytes, from)[i] == rest[i - 1]);
            }
        }
    }
}

/// What is written after a clean end starts a new line and leaves the lines
/// before it as they are.
proof fn lemma_spans_extend(bytes: Seq<u8>, tail: Seq<u8>, from: int)
    requires
        ends_clean(bytes),
        0 <= from <= bytes.len(),
    ensures
        spans_from(bytes + tail, from) == spans_from(bytes, from) + spans_from(
            bytes + tail,
            bytes.len() as int,
        ),
    decreases bytes.len() - from,
{
    let whole = bytes + tail;
    if from < bytes.len() {
        let end = line_end(bytes, from);
        lemma_line_end(bytes, from);
        assert(end < bytes.len());
        assert forall|k: int| from <= k < end implies whole[k] != NEWLINE by {
            assert(whole[k] == bytes[k]);
        }
        lemma_line_end_at(whole, from, end);
        lemma_spans_extend(bytes, tail, end + 1);
        assert(spans_from(whole, from) =~= spans_from(bytes, from) + spans_from(
            whole,
            bytes.len() as int,
        ));
    } else {
        assert(spans_from(bytes, from) =~= Seq::empty());
        assert(spans_from(whole, from) =~= spans_from(bytes, from) + spans_from(
            whole,
            bytes.len() as int,
        ));
    }
}

/// One more line, with or without its newline, is one more span.
pub proof fn lemma_one_more_line(bytes: Seq<u8>, line: Seq<u8>, newline: bool)
    requires
        ends_clean(bytes),
        is_one_line(line),
        line.len() > 0 || newline,
    ensures
        ({
            let tail = framed(line, newline);
            let start = bytes.len() as int;
            &&& line_spans(bytes + tail) == line_spans(bytes).push((start, start + line.len()))
            &&& span_bytes(bytes + tail, (start, start + line.len())) == line
            &&& forall|i: int|
                0 <= i < line_spans(bytes).len() ==> span_bytes(
                    bytes + tail,
                    #[trigger] line_spans(bytes)[i],
                ) == span_bytes(bytes, line_spans(bytes)[i])
        }),
{
    let tail = framed(line, newline);
    let whole = bytes + tail;
    let start = bytes.len() as int;
    let end = start + line.len();
    lemma_spans_extend(bytes, tail, 0);
    assert forall|k: int| start <= k < end implies whole[k] != NEWLINE by {
        assert(whole[k] == line[k - start]);
    }
    lemma_line_end_at(whole, start, end);
    assert(spans_from(whole, end + 1) =~= Seq::empty());
    assert(spans_from(whole, start) =~= seq![(start, end)]);
    assert(line_spans(whole) =~= line_spans(bytes).push((start, end)));
    assert(span_bytes(whole, (start, end)) =~= line);
    lemma_spans_within(bytes, 0);
    assert forall|i: int| 0 <= i < line_spans(bytes).len() implies span_bytes(
        whole,
        #[trigger] line_spans(bytes)[i],
    ) == span_bytes(bytes, line_spans(bytes)[i]) by {
        let span = line_spans(bytes)[i];
        assert(span_bytes(whole, span) =~= span_bytes(bytes, span));
    }
}

/// A line as it stands in a file, with its newline or, where the write was cut
/// short, without.
pub open spec fn framed(line: Seq<u8>, newline: bool) -> Seq<u8> {
    if newline {
        line.push(NEWLINE)
    } else {
        line
    }
}

/// What ends a last line that lacks its newline, and nothing where there is no
/// such line.
pub open spec fn gap(unterminated: bool) -> Seq<u8> {
    if unterminated {
        seq![NEWLINE]
    } else {
        Seq::empty()
    }
}

/// The file with its last line ended.
pub open spec fn closed(bytes: Seq<u8>) -> Seq<u8> {
    bytes + gap(!ends_clean(bytes))
}

/// What is handed out for one line: before it the newline that the line in
/// front may lack, behind it its own.
pub fn frame_line(line: Vec<u8>, unterminated: bool) -> (bytes: Vec<u8>)
    ensures
        bytes@ == gap(unterminated) + framed(line@, true),
{
    let mut bytes: Vec<u8> = Vec::new();
    if unterminated {
        bytes.push(NEWLINE);
    }
    let mut line = line;
    bytes.append(&mut line);
    bytes.push(NEWLINE);
    bytes
}

/// A newline after a last line that lacks it adds no line.
proof fn lemma_spans_close(bytes: Seq<u8>, from: int)
    requires
        !ends_clean(bytes),
        0 <= from < bytes.len(),
    ensures
        spans_from(bytes.push(NEWLINE), from) == spans_from(bytes, from),
    decreases bytes.len() - from,
{
    let whole = bytes.push(NEWLINE);
    let end = line_end(bytes, from);
    lemma_line_end(bytes, from);
    assert forall|k: int| from <= k < end implies whole[k] != NEWLINE by {
        assert(whole[k] == bytes[k]);
    }
    lemma_line_end_at(whole, from, end);
    if end < bytes.len() {
        assert(end < bytes.len() - 1);
        lemma_spans_close(bytes, end + 1);
    } else {
        assert(spans_from(whole, end + 1) =~= Seq::empty());
        assert(spans_from(bytes, end + 1) =~= Seq::empty());
    }
}

/// Ending the last line changes no record.
pub proof fn law_closed_file<T>(
    bytes: Seq<u8>,
    p: spec_fn(Seq<char>) -> Result<T, String>,
    records: Seq<T>,
)
    requires
        reads_as(bytes, p, records),
    ensures
        ends_clean(closed(bytes)),
        reads_as(closed(bytes), p, records),
{
    if ends_clean(bytes) {
        assert(closed(bytes) =~= bytes);
    } else {
        let whole = bytes.push(NEWLINE);
        assert(closed(bytes) =~= whole);
        lemma_spans_close(bytes, 0);
        lemma_spans_within(bytes, 0);
        let spans = line_spans(bytes);
        assert forall|i: int| 0 <= i < spans.len() implies line_reads_as(
            span_bytes(whole, #[trigger] spans[i]),
            p,
            records[i],
        ) by {
            assert(span_bytes(whole, spans[i]) =~= span_bytes(bytes, spans[i]));
        }
    }
}

/// Reading gives back what was written: a line appended to a file whose last
/// line is ended first is read as one more record after the records already
/// there; with its newline the file ends clean.
pub proof fn law_append_line<T>(
    bytes: Seq<u8>,
    p: spec_fn(Seq<char>) -> Result<T, String>,
    records: Seq<T>,
    line: Seq<u8>,
    newline: bool,
    record: T,
)
    requires
        reads_as(bytes, p, records),
        is_one_line(line),
        line.len() > 0 || newline,
        line_reads_as(line, p, record),
    ensures
        ends_clean(closed(bytes) + framed(line, newline)) == newline,
        reads_as(closed(bytes) + framed(line, newline), p, records.push(record)),
{
    law_closed_file(bytes, p, records);
    let bytes = closed(bytes);
    lemma_one_more_line(bytes, line, newline);
    let whole = bytes + framed(line, newline);
    let spans = line_spans(whole);
    assert forall|i: int| 0 <= i < spans.len() implies line_reads_as(
        span_bytes(whole, #[trigger] spans[i]),
        p,
        records.push(record)[i],
    ) by {
        if i < line_spans(bytes).len() {
            assert(spans[i] == line_spans(bytes)[i]);
        }
    }
}

/// An empty file reads as no record.
pub proof fn law_empty_file<T>(p: spec_fn(Seq<char>) -> Result<T, String>)
    ensures
        ends_clean(Seq::empty()),
        reads_as(Seq::empty(), p, Seq::empty()),
{
}

/// A file whose lines all decode is read in full, whether or not a torn tail
/// would be repaired, and keeps its size.
pub proof fn law_read_back<T, F: Fn(&str) -> Result<T, String>>(
    bytes: Seq<u8>,
    name: Seq<char>,
    repair_torn_tail: bool,
    parse: F,
    p: spec_fn(Seq<char>) -> Result<T, String>,
    records: Seq<T>,
    result: Result<(Vec<T>, u64), StoreError>,
)
    requires
        computes(parse, p),
        reads_as(bytes, p, records),
        read_yields(bytes, name, repair_torn_tail, parse, result),
    ensures
        result is Ok,
        result->Ok_0.0@ == records,
        result->Ok_0.1 == bytes.len(),
{
    let spans = line_spans(bytes);
    assert forall|i: int, o: Result<T, String>|
        0 <= i < spans.len() && #[trigger] decodes_to(
            parse,
            span_bytes(bytes, #[trigger] spans[i]),
            o,
        ) implies o == Ok::<T, String>(records[i]) by {
        assert(line_reads_as(span_bytes(bytes, spans[i]), p, records[i]));
    }
    match result {
        Ok((got, size)) => {
            if got@.len() + 1 == spans.len() && size == spans.last().0 && got@.len()
                != spans.len() {
                let reason = choose|reason: String| #[trigger]
                    decodes_to(parse, span_bytes(bytes, spans.last()), Err::<T, String>(reason));
                assert(decodes_to(
                    parse,
                    span_bytes(bytes, spans[spans.len() - 1]),
                    Err::<T, String>(reason),
                ));
                assert(false);
            }
            assert forall|i: int| 0 <= i < got@.len() implies got@[i] == records[i] by {
                assert(decodes_to(parse, span_bytes(bytes, spans[i]), Ok::<T, String>(got@[i])));
            }
            assert(got@ =~= records);
        },
        Err(StoreError::Corrupt { segment, line, reason }) => {
            assert(decodes_to(
                parse,
                span_bytes(bytes, spans[line - 1]),
                Err::<T, String>(reason),
            ));
            assert(false);
        },
        Err(_) => {},
    }
}

/// A torn tail is repaired: if a write after a clean end left a line that
/// does not decode, with or without its newline, then reading with repair
/// gives exactly the records before it, and the size the file had before it.
pub proof fn law_torn_tail<T, F: Fn(&str) -> Result<T, String>>(
    bytes: Seq<u8>,
    torn: Seq<u8>,
    newline: bool,
    name: Seq<char>,
    parse: F,
    p: spec_fn(Seq<char>) -> Result<T, String>,
    records: Seq<T>,
    result: Result<(Vec<T>, u64), StoreError>,
)
    requires
        computes(parse, p),
        ends_clean(bytes),
        reads_as(bytes, p, records),
        is_one_line(torn),
        torn.len() > 0 || newline,
        forall|record: T| !#[trigger] line_reads_as(torn, p, record),
        read_yields(
            bytes + framed(torn, newline),
            name,
            true,
            parse,
            result,
        ),
    ensures
        result is Ok,
        result->Ok_0.0@ == records,
        result->Ok_0.1 == bytes.len(),
{
    lemma_one_more_line(bytes, torn, newline);
    let whole = bytes + framed(torn, newline);
    let spans = line_spans(whole);
    let last = spans.len() - 1;
    assert forall|i: int, o: Result<T, String>|
        0 <= i < last && #[trigger] decodes_to(
            parse,
            span_bytes(whole, #[trigger] spans[i]),
            o,
        ) implies o == Ok::<T, String>(records[i]) by {
        assert(spans[i] == line_spans(bytes)[i]);
        assert(line_reads_as(span_bytes(bytes, line_spans(bytes)[i]), p, records[i]));
    }
    assert forall|record: T| !decodes_to(
        parse,
        span_bytes(whole, spans[last]),
        Ok::<T, String>(record),
    ) by {
        assert(!line_reads_as(torn, p, record));
    }
    match result {
        Ok((got, size)) => {
            if got@.len() == spans.len() {
                assert(decodes_to(
                    parse,
                    span_bytes(whole, spans[last]),
                    Ok::<T, String>(got@[last]),
                ));
                assert(false);
            }
            assert forall|i: int| 0 <= i < got@.len() implies got@[i] == records[i] by {
                assert(decodes_to(parse, span_bytes(whole, spans[i]), Ok::<T, String>(got@[i])));
            }
            assert(got@ =~= records);
        },
        Err(StoreError::Corrupt { segment, line, reason }) => {
            assert(line - 1 < last);
            assert(decodes_to(
                parse,
                span_bytes(whole, spans[line - 1]),
                Err::<T, String>(reason),
            ));
            assert(false);
        },
        Err(_) => {},
    }
}

/// Every line of the file decodes.
pub open spec fn all_decode<T>(bytes: Seq<u8>, p: spec_fn(Seq<char>) -> Result<T, String>) -> bool {
    reads_as(bytes, p, records_in(bytes, p))
}

/// The records of a file whose lines all decode.
pub open spec fn records_in<T>(
    bytes: Seq<u8>,
    p: spec_fn(Seq<char>) -> Result<T, String>,
) -> Seq<T> {
    Seq::new(
        line_spans(bytes).len(),
        |i: int| p(decode_utf8(span_bytes(bytes, line_spans(bytes)[i])))->Ok_0,
    )
}

/// A file reads as one list of records at most.
pub proof fn lemma_records_in<T>(
    bytes: Seq<u8>,
    p: spec_fn(Seq<char>) -> Result<T, String>,
    records: Seq<T>,
)
    requires
        reads_as(bytes, p, records),
    ensures
        records == records_in(bytes, p),
        all_decode(bytes, p),
{
    let spans = line_spans(bytes);
    assert forall|i: int| 0 <= i < records.len() implies records[i] == records_in(bytes, p)[i] by {
        assert(line_reads_as(span_bytes(bytes, spans[i]), p, records[i]));
    }
    assert(records =~= records_in(bytes, p));
}

/// A line that does not decode, and is not a torn tail to be repaired, is
/// reported by its number.
pub proof fn law_corrupt_line<T, F: Fn(&str) -> Result<T, String>>(
    bytes: Seq<u8>,
    name: Seq<char>,
    repair_torn_tail: bool,
    parse: F,
    p: spec_fn(Seq<char>) -> Result<T, String>,
    before: Seq<T>,
    result: Result<(Vec<T>, u64), StoreError>,
)
    requires
        computes(parse, p),
        before.len() < line_spans(bytes).len(),
        forall|i: int|
            0 <= i < before.len() ==> line_reads_as(
                span_bytes(bytes, #[trigger] line_spans(bytes)[i]),
                p,
                before[i],
            ),
        forall|record: T|
            !#[trigger] line_reads_as(
                span_bytes(bytes, line_spans(bytes)[before.len() as int]),
                p,
                record,
            ),
        !(repair_torn_tail && before.len() + 1 == line_spans(bytes).len()),
        read_yields(bytes, name, repair_torn_tail, parse, result),
    ensures
        result matches Err(StoreError::Corrupt { segment, line, .. }) && segment@ == name && line
            == before.len() + 1,
{
    let spans = line_spans(bytes);
    let bad = before.len() as int;
    assert forall|i: int, reason: String|
        0 <= i < before.len() implies !#[trigger] decodes_to(
        parse,
        span_bytes(bytes, spans[i]),
        Err::<T, String>(reason),
    ) by {
        assert(line_reads_as(span_bytes(bytes, spans[i]), p, before[i]));
    }
    assert forall|record: T| !#[trigger] decodes_to(
        parse,
        span_bytes(bytes, spans[bad]),
        Ok::<T, String>(record),
    ) by {
        assert(!line_reads_as(span_bytes(bytes, spans[bad]), p, record));
    }
    match result {
        Ok((got, size)) => {
            if bad < got@.len() {
                assert(decodes_to(parse, span_bytes(bytes, spans[bad]), Ok::<T, String>(got@[bad])));
            } else {
                assert(bad == spans.len() - 1);
            }
            assert(false);
        },
        Err(StoreError::Corrupt { segment, line, reason }) => {
            if line - 1 > bad {
                let prefix = choose|prefix: Seq<T>|
                    prefix.len() == line - 1 && #[trigger] decoded_prefix(parse, bytes, prefix);
                assert(decodes_to(
                    parse,
                    span_bytes(bytes, spans[bad]),
                    Ok::<T, String>(prefix[bad]),
                ));
                assert(false);
            }
        },
        Err(_) => {},
    }
}

} // verus!

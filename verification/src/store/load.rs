//! Loading segment files through a reader supplied by the caller.

use crate::error::StoreError;
use crate::store::lines::{
    computes, ends_clean, framed, is_one_line, law_read_back, law_torn_tail, lemma_spans_within,
    line_reads_as, line_spans, read_segment, read_yields, reads_as, NEWLINE,
};
use crate::store::segment::Listed;
use crate::text::texts;
use vstd::prelude::*;

verus! {

/// What one segment file holds.
pub struct Batch<T> {
    /// The records, in file order.
    pub records: Vec<T>,
    /// The size the file has once a torn tail is cut off.
    pub size: u64,
    /// Whether there is a torn tail to cut off.
    pub torn: bool,
    /// Whether the last line that is kept lacks its newline.
    pub unterminated: bool,
}

/// The reader can answer with these bytes for a file of this name.
pub open spec fn served<R: Fn(&String) -> Result<Vec<u8>, StoreError>>(
    read: R,
    name: Seq<char>,
    bytes: Seq<u8>,
) -> bool {
    exists|n: String, v: Vec<u8>|
        n@ == name && v@ == bytes && #[trigger] call_ensures(read, (&n,), Ok(v))
}

/// The reader can answer with this error for a file of this name.
pub open spec fn refused<R: Fn(&String) -> Result<Vec<u8>, StoreError>>(
    read: R,
    name: Seq<char>,
    error: StoreError,
) -> bool {
    exists|n: String| n@ == name && #[trigger] call_ensures(read, (&n,), Err(error))
}

/// A batch is what reading the served bytes owes.
pub open spec fn batch_of<T, F: Fn(&str) -> Result<T, String>>(
    bytes: Seq<u8>,
    name: Seq<char>,
    repair_torn_tail: bool,
    parse: F,
    batch: Batch<T>,
) -> bool {
    &&& read_yields(bytes, name, repair_torn_tail, parse, Ok((batch.records, batch.size)))
    &&& batch.torn == (batch.size < bytes.len())
    &&& batch.unterminated == !ends_clean(bytes.take(batch.size as int))
}

/// `result` is what loading the file owes: the batch read from what the
/// reader serves, or the reader's error, or the error of reading.
pub open spec fn load_yields<
    T,
    R: Fn(&String) -> Result<Vec<u8>, StoreError>,
    F: Fn(&str) -> Result<T, String>,
>(
    name: Seq<char>,
    repair_torn_tail: bool,
    read: R,
    parse: F,
    result: Result<Batch<T>, StoreError>,
) -> bool {
    match result {
        Ok(batch) => exists|bytes: Seq<u8>| #[trigger]
            served(read, name, bytes) && batch_of(bytes, name, repair_torn_tail, parse, batch),
        Err(error) => {
            ||| refused(read, name, error)
            ||| exists|bytes: Seq<u8>| #[trigger]
                served(read, name, bytes) && read_yields(
                    bytes,
                    name,
                    repair_torn_tail,
                    parse,
                    Err::<(Vec<T>, u64), StoreError>(error),
                )
        },
    }
}

/// Load one segment file.
pub fn load_segment<
    T,
    R: Fn(&String) -> Result<Vec<u8>, StoreError>,
    F: Fn(&str) -> Result<T, String>,
>(name: &String, repair_torn_tail: bool, read: &R, parse: &F) -> (result: Result<
    Batch<T>,
    StoreError,
>)
    requires
        forall|n: &String| #[trigger] call_requires(*read, (n,)),
        forall|s: &str| #[trigger] call_requires(*parse, (s,)),
    ensures
        load_yields(name@, repair_torn_tail, *read, *parse, result),
{
    match read(name) {
        Ok(bytes) => {
            assert(served(*read, name@, bytes@));
            match read_segment(bytes.as_slice(), name, repair_torn_tail, parse) {
                Ok((records, size)) => {
                    proof {
                        lemma_spans_within(bytes@, 0);
                        assert(line_spans(bytes@).len() > 0 ==> line_spans(bytes@).last().0
                            <= bytes@.len());
                    }
                    let unterminated = size > 0 && bytes[(size - 1) as usize] != NEWLINE;
                    Ok(Batch { records, size, torn: size < bytes.len() as u64, unterminated })
                },
                Err(error) => Err(error),
            }
        },
        Err(error) => Err(error),
    }
}

/// The listed files load as `batches`, one each, with repair of the last file
/// of the listing only.
pub open spec fn opened_prefix<
    T,
    R: Fn(&String) -> Result<Vec<u8>, StoreError>,
    F: Fn(&str) -> Result<T, String>,
>(listing: Seq<Listed>, read: R, parse: F, batches: Seq<Batch<T>>) -> bool {
    &&& batches.len() <= listing.len()
    &&& forall|i: int|
        0 <= i < batches.len() ==> load_yields(
            (#[trigger] listing[i]).0,
            i + 1 == listing.len(),
            read,
            parse,
            Ok(batches[i]),
        )
}

/// Opening a directory fails with `error`: the first listed file that does
/// not load is to blame.
pub open spec fn open_fails<
    T,
    R: Fn(&String) -> Result<Vec<u8>, StoreError>,
    F: Fn(&str) -> Result<T, String>,
>(listing: Seq<Listed>, read: R, parse: F, error: StoreError) -> bool {
    exists|batches: Seq<Batch<T>>| #[trigger]
        opened_prefix(listing, read, parse, batches) && batches.len() < listing.len()
            && load_yields(
            listing[batches.len() as int].0,
            batches.len() + 1 == listing.len(),
            read,
            parse,
            Err::<Batch<T>, StoreError>(error),
        )
}

/// A file that must be cut back to its last whole line.
#[derive(Debug, Clone, PartialEq, Eq)]
pub struct Repair {
    /// The segment file.
    pub segment: String,
    /// The size to cut it back to.
    pub size: u64,
}

/// The repair that opening calls for: the last file, where its tail is torn.
pub open spec fn repair_needed<T>(
    listing: Seq<Listed>,
    batches: Seq<Batch<T>>,
    repair: Option<Repair>,
) -> bool {
    if batches.len() > 0 && batches.last().torn {
        &&& repair is Some
        &&& repair->0.segment@ == listing.last().0
        &&& repair->0.size == batches.last().size
    } else {
        repair is None
    }
}

/// Records of the batches one after the other.
pub open spec fn chain<T>(batches: Seq<Batch<T>>) -> Seq<T>
    decreases batches.len(),
{
    if batches.len() == 0 {
        Seq::empty()
    } else {
        chain(batches.drop_last()) + batches.last().records@
    }
}

/// The named files load as `batches`, one each, without repair.
pub open spec fn loaded_prefix<
    T,
    R: Fn(&String) -> Result<Vec<u8>, StoreError>,
    F: Fn(&str) -> Result<T, String>,
>(names: Seq<String>, read: R, parse: F, batches: Seq<Batch<T>>) -> bool {
    &&& batches.len() <= names.len()
    &&& forall|i: int|
        0 <= i < batches.len() ==> load_yields(
            #[trigger] names[i]@,
            false,
            read,
            parse,
            Ok(batches[i]),
        )
}

/// `result` is what replaying the named files owes: all their records in
/// order, or the error of the first file that does not load.
pub open spec fn replay_yields<
    T,
    R: Fn(&String) -> Result<Vec<u8>, StoreError>,
    F: Fn(&str) -> Result<T, String>,
>(names: Seq<String>, read: R, parse: F, result: Result<Vec<T>, StoreError>) -> bool {
    match result {
        Ok(records) => exists|batches: Seq<Batch<T>>| #[trigger]
            loaded_prefix(names, read, parse, batches) && batches.len() == names.len()
                && records@ == chain(batches),
        Err(error) => exists|batches: Seq<Batch<T>>| #[trigger]
            loaded_prefix(names, read, parse, batches) && batches.len() < names.len()
                && load_yields(
                names[batches.len() as int]@,
                false,
                read,
                parse,
                Err::<Batch<T>, StoreError>(error),
            ),
    }
}

/// Read the named segment files back, in order.
pub fn replay<
    T,
    R: Fn(&String) -> Result<Vec<u8>, StoreError>,
    F: Fn(&str) -> Result<T, String>,
>(names: &Vec<String>, read: &R, parse: &F) -> (result: Result<Vec<T>, StoreError>)
    requires
        forall|n: &String| #[trigger] call_requires(*read, (n,)),
        forall|s: &str| #[trigger] call_requires(*parse, (s,)),
    ensures
        replay_yields(names@, *read, *parse, result),
{
    let mut out: Vec<T> = Vec::new();
    let mut i: usize = 0;
    let ghost mut batches: Seq<Batch<T>> = Seq::empty();
    while i < names.len()
        invariant
            i <= names.len(),
            batches.len() == i,
            out@ == chain(batches),
            loaded_prefix(names@, *read, *parse, batches),
            forall|n: &String| #[trigger] call_requires(*read, (n,)),
            forall|s: &str| #[trigger] call_requires(*parse, (s,)),
        decreases names.len() - i,
    {
        match load_segment(&names[i], false, read, parse) {
            Ok(batch) => {
                let ghost extended = batches.push(batch);
                proof {
                    assert(extended.drop_last() =~= batches);
                    assert forall|k: int| 0 <= k < extended.len() implies load_yields(
                        #[trigger] names@[k]@,
                        false,
                        *read,
                        *parse,
                        Ok(extended[k]),
                    ) by {
                        if k < batches.len() {
                            assert(extended[k] == batches[k]);
                        }
                    }
                    batches = extended;
                }
                let Batch { mut records, size, torn, unterminated } = batch;
                out.append(&mut records);
            },
            Err(error) => {
                assert(loaded_prefix(names@, *read, *parse, batches));
                return Err(error);
            },
        }
        i += 1;
    }
    Ok(out)
}

/// The last `limit` items, in order.
pub open spec fn last_items<T>(items: Seq<T>, limit: nat) -> Seq<T> {
    if items.len() <= limit {
        items
    } else {
        items.skip(items.len() - limit)
    }
}

/// `result` is what is owed where the last records of the named files are asked
/// for: the end of what replaying them gives, or its error.
pub open spec fn recent_of<
    T,
    R: Fn(&String) -> Result<Vec<u8>, StoreError>,
    F: Fn(&str) -> Result<T, String>,
>(
    names: Seq<Seq<char>>,
    limit: nat,
    read: R,
    parse: F,
    result: Result<Vec<T>, StoreError>,
) -> bool {
    exists|strings: Seq<String>, all: Result<Vec<T>, StoreError>|
        texts(strings) == names && #[trigger] replay_yields(strings, read, parse, all) && match (
            all,
            result,
        ) {
            (Ok(all), Ok(result)) => result@ == last_items(all@, limit),
            (Err(a), Err(b)) => a == b,
            _ => false,
        }
}

/// Keep the last `limit` items.
pub fn keep_last<T>(items: Vec<T>, limit: usize) -> (out: Vec<T>)
    ensures
        out@ == last_items(items@, limit as nat),
{
    let mut items = items;
    let skip: usize = if items.len() > limit {
        items.len() - limit
    } else {
        0
    };
    let out = items.split_off(skip);
    assert(out@ =~= last_items(items@.take(skip as int) + out@, limit as nat));
    out
}

/// `outcome` can come out of handing one framed line for the named segment
/// to the writer.
pub open spec fn written<W: FnOnce(&String, &Vec<u8>) -> Result<(), StoreError>>(
    write: W,
    segment: Seq<char>,
    framed: Seq<u8>,
    outcome: Result<(), StoreError>,
) -> bool {
    exists|n: String, v: Vec<u8>|
        n@ == segment && v@ == framed && #[trigger] call_ensures(write, (&n, &v), outcome)
}

// ---------------------------------------------------------------------------
// Files on a disk
// ---------------------------------------------------------------------------

/// Named files and their bytes.
pub type Disk = Map<Seq<char>, Seq<u8>>;

/// The reader serves the files of `disk`.
pub open spec fn serves<R: Fn(&String) -> Result<Vec<u8>, StoreError>>(
    read: R,
    disk: Disk,
) -> bool {
    forall|n: &String, r: Result<Vec<u8>, StoreError>| #[trigger]
        call_ensures(read, (n,), r) && disk.contains_key(n@) ==> r is Ok && r->Ok_0@ == disk[n@]
}

/// A file whose lines all decode loads in full.
pub proof fn lemma_load_back<
    T,
    R: Fn(&String) -> Result<Vec<u8>, StoreError>,
    F: Fn(&str) -> Result<T, String>,
>(
    disk: Disk,
    name: Seq<char>,
    repair_torn_tail: bool,
    read: R,
    parse: F,
    p: spec_fn(Seq<char>) -> Result<T, String>,
    records: Seq<T>,
    result: Result<Batch<T>, StoreError>,
)
    requires
        serves(read, disk),
        computes(parse, p),
        disk.contains_key(name),
        reads_as(disk[name], p, records),
        load_yields(name, repair_torn_tail, read, parse, result),
    ensures
        result is Ok,
        result->Ok_0.records@ == records,
        result->Ok_0.size == disk[name].len(),
        !result->Ok_0.torn,
        result->Ok_0.unterminated == !ends_clean(disk[name]),
{
    match result {
        Ok(batch) => {
            let bytes = choose|bytes: Seq<u8>| #[trigger]
                served(read, name, bytes) && batch_of(bytes, name, repair_torn_tail, parse, batch);
            assert(bytes == disk[name]);
            law_read_back(
                bytes,
                name,
                repair_torn_tail,
                parse,
                p,
                records,
                Ok((batch.records, batch.size)),
            );
            assert(bytes.take(bytes.len() as int) =~= bytes);
        },
        Err(error) => {
            assert(!refused(read, name, error));
            let bytes = choose|bytes: Seq<u8>| #[trigger]
                served(read, name, bytes) && read_yields(
                    bytes,
                    name,
                    repair_torn_tail,
                    parse,
                    Err::<(Vec<T>, u64), StoreError>(error),
                );
            assert(bytes == disk[name]);
            law_read_back(
                bytes,
                name,
                repair_torn_tail,
                parse,
                p,
                records,
                Err::<(Vec<T>, u64), StoreError>(error),
            );
        },
    }
}

/// A file that ends in a torn line loads, with repair, as if that line had
/// never been written.
pub proof fn lemma_load_torn<
    T,
    R: Fn(&String) -> Result<Vec<u8>, StoreError>,
    F: Fn(&str) -> Result<T, String>,
>(
    disk: Disk,
    name: Seq<char>,
    bytes: Seq<u8>,
    torn: Seq<u8>,
    newline: bool,
    read: R,
    parse: F,
    p: spec_fn(Seq<char>) -> Result<T, String>,
    records: Seq<T>,
    result: Result<Batch<T>, StoreError>,
)
    requires
        serves(read, disk),
        computes(parse, p),
        disk.contains_key(name),
        disk[name] == bytes + framed(torn, newline),
        ends_clean(bytes),
        reads_as(bytes, p, records),
        is_one_line(torn),
        torn.len() > 0 || newline,
        forall|record: T| !#[trigger] line_reads_as(torn, p, record),
        load_yields(name, true, read, parse, result),
    ensures
        result is Ok,
        result->Ok_0.records@ == records,
        result->Ok_0.size == bytes.len(),
        result->Ok_0.torn,
        !result->Ok_0.unterminated,
{
    match result {
        Ok(batch) => {
            let got = choose|got: Seq<u8>| #[trigger]
                served(read, name, got) && batch_of(got, name, true, parse, batch);
            assert(got == disk[name]);
            law_torn_tail(
                bytes,
                torn,
                newline,
                name,
                parse,
                p,
                records,
                Ok((batch.records, batch.size)),
            );
            assert(got.take(bytes.len() as int) =~= bytes);
        },
        Err(error) => {
            assert(!refused(read, name, error));
            let got = choose|got: Seq<u8>| #[trigger]
                served(read, name, got) && read_yields(
                    got,
                    name,
                    true,
                    parse,
                    Err::<(Vec<T>, u64), StoreError>(error),
                );
            assert(got == disk[name]);
            law_torn_tail(
                bytes,
                torn,
                newline,
                name,
                parse,
                p,
                records,
                Err::<(Vec<T>, u64), StoreError>(error),
            );
        },
    }
}

} // verus!

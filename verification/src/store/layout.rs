//! How a store's segments lie on a disk, and what reading them gives back.

use crate::error::StoreError;
use crate::store::lines::{
    all_decode, closed, computes, ends_clean, framed, gap, is_one_line, law_append_line,
    law_closed_file, law_corrupt_line, law_empty_file, lemma_records_in, line_reads_as, line_spans,
    read_yields, records_in, span_bytes,
};
use crate::store::load::{
    batch_of, chain, lemma_load_back, lemma_load_torn, load_yields, loaded_prefix, open_fails,
    opened_prefix, refused, replay_yields, served, serves, Batch, Disk,
};
use crate::store::segment::{
    file_name, law_listing, law_listing_is_determined, law_name_carries_index,
    law_name_order_is_numeric, listed_le, listing_of, segment_index, segments_among, Listed,
};
use crate::text::texts;
use vstd::prelude::*;
use vstd::relations::sorted_by;

verus! {

/// The index that a segment's name carries.
pub open spec fn index_in(name: Seq<char>, prefix: Seq<char>) -> u64 {
    segment_index(name, prefix)->0
}

/// The name is the one made of the index it carries.
pub open spec fn well_named(name: Seq<char>, prefix: Seq<char>) -> bool {
    &&& segment_index(name, prefix) is Some
    &&& name == file_name(prefix, index_in(name, prefix))
}

/// The indexes grow along the names.
pub open spec fn in_order(names: Seq<Seq<char>>, prefix: Seq<char>) -> bool {
    forall|i: int, j: int|
        0 <= i < j < names.len() ==> index_in(#[trigger] names[i], prefix) < index_in(
            #[trigger] names[j],
            prefix,
        )
}

/// The segments `names` are numbered in order, `next` is the number after the
/// last of them and within the range in which names sort as numbers do, and
/// they are exactly the segment files on the disk.
pub open spec fn laid_out(
    names: Seq<Seq<char>>,
    prefix: Seq<char>,
    next: u64,
    disk: Disk,
) -> bool {
    &&& forall|i: int| 0 <= i < names.len() ==> well_named(#[trigger] names[i], prefix)
    &&& in_order(names, prefix)
    &&& next == if names.len() == 0 {
        0
    } else {
        index_in(names.last(), prefix) + 1
    }
    &&& next <= 1_000_000
    &&& forall|i: int| 0 <= i < names.len() ==> disk.contains_key(#[trigger] names[i])
    &&& forall|name: Seq<char>| #[trigger]
        disk.contains_key(name) && segment_index(name, prefix) is Some ==> names.contains(name)
}

/// All lines of every segment file decode.
pub open spec fn files_decode<T>(
    names: Seq<Seq<char>>,
    disk: Disk,
    p: spec_fn(Seq<char>) -> Result<T, String>,
) -> bool {
    forall|i: int| 0 <= i < names.len() ==> all_decode(disk[#[trigger] names[i]], p)
}

/// The last segment file, if there is one, ends with a newline or is empty.
pub open spec fn tail_clean(names: Seq<Seq<char>>, disk: Disk) -> bool {
    names.len() > 0 ==> ends_clean(disk[names.last()])
}

/// The records of all segment files, one file after the other.
pub open spec fn stored<T>(
    names: Seq<Seq<char>>,
    disk: Disk,
    p: spec_fn(Seq<char>) -> Result<T, String>,
) -> Seq<T>
    decreases names.len(),
{
    if names.len() == 0 {
        Seq::empty()
    } else {
        stored(names.drop_last(), disk, p) + records_in(disk[names.last()], p)
    }
}

/// The file names are those of the disk, each once.
pub open spec fn lists_disk(files: Seq<String>, disk: Disk) -> bool {
    &&& texts(files).no_duplicates()
    &&& forall|name: Seq<char>| #[trigger] texts(files).contains(name) <==> disk.contains_key(name)
}

/// The segments with their indexes.
pub open spec fn indexed(names: Seq<Seq<char>>, prefix: Seq<char>) -> Seq<Listed> {
    names.map_values(|n: Seq<char>| (n, index_in(n, prefix)))
}

/// Numbers below the last one carry on in order.
pub proof fn lemma_indexes_below(names: Seq<Seq<char>>, prefix: Seq<char>, next: u64, disk: Disk)
    requires
        laid_out(names, prefix, next, disk),
    ensures
        forall|i: int| 0 <= i < names.len() ==> index_in(#[trigger] names[i], prefix) < next,
{
    assert forall|i: int| 0 <= i < names.len() implies index_in(#[trigger] names[i], prefix)
        < next by {
        if i < names.len() - 1 {
            assert(index_in(names[i], prefix) < index_in(names[names.len() - 1], prefix));
        }
    }
}

/// The next name is on no segment and on no file.
pub proof fn lemma_next_is_fresh(names: Seq<Seq<char>>, prefix: Seq<char>, next: u64, disk: Disk)
    requires
        laid_out(names, prefix, next, disk),
    ensures
        !names.contains(file_name(prefix, next)),
        !disk.contains_key(file_name(prefix, next)),
{
    let fresh = file_name(prefix, next);
    law_name_carries_index(prefix, next);
    lemma_indexes_below(names, prefix, next, disk);
    if names.contains(fresh) {
        let i = choose|i: int| 0 <= i < names.len() && names[i] == fresh;
        assert(index_in(names[i], prefix) < next);
    }
}

/// Writing to a segment file keeps the layout.
pub proof fn lemma_write_keeps_layout(
    names: Seq<Seq<char>>,
    prefix: Seq<char>,
    next: u64,
    disk: Disk,
    name: Seq<char>,
    bytes: Seq<u8>,
)
    requires
        laid_out(names, prefix, next, disk),
        names.contains(name),
    ensures
        laid_out(names, prefix, next, disk.insert(name, bytes)),
{
}

/// Starting the next segment keeps the layout.
pub proof fn lemma_roll_keeps_layout(
    names: Seq<Seq<char>>,
    prefix: Seq<char>,
    next: u64,
    disk: Disk,
    bytes: Seq<u8>,
)
    requires
        laid_out(names, prefix, next, disk),
        next < 1_000_000,
    ensures
        laid_out(
            names.push(file_name(prefix, next)),
            prefix,
            (next + 1) as u64,
            disk.insert(file_name(prefix, next), bytes),
        ),
{
    let fresh = file_name(prefix, next);
    let more = names.push(fresh);
    law_name_carries_index(prefix, next);
    lemma_indexes_below(names, prefix, next, disk);
    assert forall|name: Seq<char>| #[trigger]
        disk.insert(fresh, bytes).contains_key(name) && segment_index(
            name,
            prefix,
        ) is Some implies more.contains(name) by {
        if name == fresh {
            assert(more[names.len() as int] == fresh);
        } else {
            assert(disk.contains_key(name));
            let i = choose|i: int| 0 <= i < names.len() && names[i] == name;
            assert(more[i] == name);
        }
    }
}

/// Two names of different segments differ.
pub proof fn lemma_names_distinct(names: Seq<Seq<char>>, prefix: Seq<char>)
    requires
        in_order(names, prefix),
    ensures
        names.no_duplicates(),
{
    assert forall|i: int, j: int|
        0 <= i < names.len() && 0 <= j < names.len() && i != j implies names[i] != names[j] by {
        if i < j {
            assert(index_in(names[i], prefix) < index_in(names[j], prefix));
        } else {
            assert(index_in(names[j], prefix) < index_in(names[i], prefix));
        }
    }
}

/// A write to one file leaves the records of other segments as they are.
pub proof fn lemma_stored_frame<T>(
    names: Seq<Seq<char>>,
    disk: Disk,
    p: spec_fn(Seq<char>) -> Result<T, String>,
    name: Seq<char>,
    bytes: Seq<u8>,
)
    requires
        !names.contains(name),
    ensures
        stored(names, disk.insert(name, bytes), p) == stored(names, disk, p),
    decreases names.len(),
{
    if names.len() > 0 {
        assert(names[names.len() - 1] != name);
        assert forall|i: int| 0 <= i < names.drop_last().len() implies names.drop_last()[i]
            != name by {
            assert(names[i] != name);
        }
        lemma_stored_frame(names.drop_last(), disk, p, name, bytes);
    }
}

/// What two lists of segments hold, one list after the other.
pub proof fn lemma_stored_add<T>(
    a: Seq<Seq<char>>,
    b: Seq<Seq<char>>,
    disk: Disk,
    p: spec_fn(Seq<char>) -> Result<T, String>,
)
    ensures
        stored(a + b, disk, p) == stored(a, disk, p) + stored(b, disk, p),
    decreases b.len(),
{
    if b.len() == 0 {
        assert(a + b =~= a);
        assert(stored(a, disk, p) + stored(b, disk, p) =~= stored(a, disk, p));
    } else {
        assert((a + b).drop_last() =~= a + b.drop_last());
        lemma_stored_add(a, b.drop_last(), disk, p);
        assert(stored(a + b, disk, p) =~= stored(a, disk, p) + stored(b, disk, p));
    }
}

/// Removing one file leaves the records of other segments as they are.
pub proof fn lemma_stored_without<T>(
    names: Seq<Seq<char>>,
    disk: Disk,
    p: spec_fn(Seq<char>) -> Result<T, String>,
    name: Seq<char>,
)
    requires
        !names.contains(name),
    ensures
        stored(names, disk.remove(name), p) == stored(names, disk, p),
    decreases names.len(),
{
    if names.len() > 0 {
        assert(names[names.len() - 1] != name);
        assert forall|i: int| 0 <= i < names.drop_last().len() implies names.drop_last()[i]
            != name by {
            assert(names[i] != name);
        }
        lemma_stored_without(names.drop_last(), disk, p, name);
    }
}

/// Dropping one segment with its file, other than the last, keeps the layout.
pub proof fn lemma_drop_keeps_layout<T>(
    names: Seq<Seq<char>>,
    prefix: Seq<char>,
    next: u64,
    disk: Disk,
    p: spec_fn(Seq<char>) -> Result<T, String>,
    i: int,
)
    requires
        laid_out(names, prefix, next, disk),
        files_decode(names, disk, p),
        0 <= i < names.len() - 1,
    ensures
        laid_out(names.remove(i), prefix, next, disk.remove(names[i])),
        files_decode(names.remove(i), disk.remove(names[i]), p),
        stored(names, disk, p) == stored(names.take(i), disk, p) + records_in(disk[names[i]], p)
            + stored(names.skip(i + 1), disk, p),
        stored(names.remove(i), disk.remove(names[i]), p) == stored(names.take(i), disk, p)
            + stored(names.skip(i + 1), disk, p),
{
    let name = names[i];
    let fewer = names.remove(i);
    let disk2 = disk.remove(name);
    lemma_names_distinct(names, prefix);
    assert forall|k: int| 0 <= k < fewer.len() implies #[trigger] fewer[k] != name && fewer[k]
        == names[if k < i {
        k
    } else {
        k + 1
    }] by {}
    assert forall|other: Seq<char>| #[trigger]
        disk2.contains_key(other) && segment_index(other, prefix) is Some implies fewer.contains(
        other,
    ) by {
        assert(disk.contains_key(other));
        let k = choose|k: int| 0 <= k < names.len() && names[k] == other;
        assert(k != i);
        if k < i {
            assert(fewer[k] == other);
        } else {
            assert(fewer[k - 1] == other);
        }
    }
    assert(fewer.last() == names.last());
    let before = names.take(i);
    let after = names.skip(i + 1);
    let single = seq![name];
    assert(fewer =~= before + after);
    assert(names =~= before + single + after);
    lemma_stored_add(before, single, disk, p);
    lemma_stored_add(before + single, after, disk, p);
    assert(single.drop_last() =~= Seq::empty());
    assert(stored(single, disk, p) =~= records_in(disk[name], p)) by {
        assert(stored(single.drop_last(), disk, p) =~= Seq::empty());
    }
    lemma_stored_add(before, after, disk, p);
    lemma_stored_without(fewer, disk, p, name);
}

/// The bytes of a file, none if it is not there.
pub open spec fn content(disk: Disk, name: Seq<char>) -> Seq<u8> {
    if disk.contains_key(name) {
        disk[name]
    } else {
        Seq::empty()
    }
}

/// The disk after these bytes were appended to the named file.
pub open spec fn with_bytes(disk: Disk, name: Seq<char>, bytes: Seq<u8>) -> Disk {
    disk.insert(name, content(disk, name) + bytes)
}

/// A line appended to the last segment, after the newline that the line in
/// front may lack, or to the next segment, is one more stored record after
/// those already there, with or without its own newline; nothing else changes.
pub proof fn lemma_line_is_stored<T>(
    names: Seq<Seq<char>>,
    roll: bool,
    prefix: Seq<char>,
    next: u64,
    disk: Disk,
    p: spec_fn(Seq<char>) -> Result<T, String>,
    line: Seq<u8>,
    newline: bool,
    record: T,
)
    requires
        laid_out(names, prefix, next, disk),
        files_decode(names, disk, p),
        roll ==> next < 1_000_000,
        !roll ==> names.len() > 0,
        is_one_line(line),
        line.len() > 0 || newline,
        line_reads_as(line, p, record),
    ensures
        ({
            let names2 = if roll {
                names.push(file_name(prefix, next))
            } else {
                names
            };
            let next2 = if roll {
                (next + 1) as u64
            } else {
                next
            };
            let lead = gap(!roll && !tail_clean(names, disk));
            let disk2 = with_bytes(disk, names2.last(), lead + framed(line, newline));
            let old_records = if roll {
                Seq::empty()
            } else {
                records_in(disk[names.last()], p)
            };
            &&& laid_out(names2, prefix, next2, disk2)
            &&& files_decode(names2, disk2, p)
            &&& tail_clean(names2, disk2) == newline
            &&& records_in(disk2[names2.last()], p) == old_records.push(record)
            &&& stored(names2, disk2, p) == stored(names, disk, p).push(record)
            &&& forall|i: int|
                0 <= i < names2.len() - 1 ==> disk2[#[trigger] names2[i]] == disk[names2[i]]
        }),
{
    let names2 = if roll {
        names.push(file_name(prefix, next))
    } else {
        names
    };
    let last = names2.last();
    let lead = gap(!roll && !tail_clean(names, disk));
    let disk2 = with_bytes(disk, last, lead + framed(line, newline));
    let old_bytes = content(disk, last);
    let new_bytes = old_bytes + (lead + framed(line, newline));
    if roll {
        lemma_next_is_fresh(names, prefix, next, disk);
        law_empty_file(p);
        assert(new_bytes =~= closed(old_bytes) + framed(line, newline));
        law_append_line(old_bytes, p, Seq::<T>::empty(), line, newline, record);
        lemma_records_in(new_bytes, p, Seq::<T>::empty().push(record));
        lemma_roll_keeps_layout(names, prefix, next, disk, new_bytes);
        lemma_stored_frame(names, disk, p, last, disk2[last]);
        assert(names2.drop_last() =~= names);
    } else {
        let n = names.len() - 1;
        assert(names[n] == last);
        assert(new_bytes =~= closed(old_bytes) + framed(line, newline));
        law_append_line(old_bytes, p, records_in(old_bytes, p), line, newline, record);
        lemma_records_in(new_bytes, p, records_in(old_bytes, p).push(record));
        lemma_write_keeps_layout(names, prefix, next, disk, last, new_bytes);
        lemma_names_distinct(names, prefix);
        assert forall|i: int| 0 <= i < names.drop_last().len() implies names.drop_last()[i]
            != last by {
            assert(names[i] != names[n]);
        }
        lemma_stored_frame(names.drop_last(), disk, p, last, disk2[last]);
    }
    lemma_names_distinct(names2, prefix);
    assert forall|i: int| 0 <= i < names2.len() - 1 implies disk2[#[trigger] names2[i]]
        == disk[names2[i]] by {
        assert(names2[i] != names2[names2.len() - 1]);
    }
    assert forall|i: int| 0 <= i < names2.len() implies all_decode(
        disk2[#[trigger] names2[i]],
        p,
    ) by {
        if i < names2.len() - 1 {
            assert(names2[i] == names[i]);
        }
    }
    assert(stored(names2, disk2, p) =~= stored(names, disk, p).push(record));
}

/// The disk with the last line of the named file ended.
pub open spec fn with_closed(disk: Disk, name: Seq<char>) -> Disk {
    disk.insert(name, closed(disk[name]))
}

/// Ending the last line of the last segment keeps the layout and changes no
/// record.
pub proof fn lemma_closing_keeps_layout<T>(
    names: Seq<Seq<char>>,
    prefix: Seq<char>,
    next: u64,
    disk: Disk,
    p: spec_fn(Seq<char>) -> Result<T, String>,
)
    requires
        laid_out(names, prefix, next, disk),
        files_decode(names, disk, p),
        names.len() > 0,
    ensures
        ({
            let disk2 = with_closed(disk, names.last());
            &&& laid_out(names, prefix, next, disk2)
            &&& files_decode(names, disk2, p)
            &&& tail_clean(names, disk2)
            &&& stored(names, disk2, p) == stored(names, disk, p)
            &&& forall|i: int|
                0 <= i < names.len() ==> records_in(disk2[#[trigger] names[i]], p) == records_in(
                    disk[names[i]],
                    p,
                )
            &&& forall|i: int|
                0 <= i < names.len() - 1 ==> disk2[#[trigger] names[i]] == disk[names[i]]
        }),
{
    let n = names.len() - 1;
    let last = names[n];
    let disk2 = with_closed(disk, last);
    law_closed_file(disk[last], p, records_in(disk[last], p));
    lemma_records_in(closed(disk[last]), p, records_in(disk[last], p));
    lemma_write_keeps_layout(names, prefix, next, disk, last, closed(disk[last]));
    lemma_names_distinct(names, prefix);
    assert forall|i: int| 0 <= i < n implies names.drop_last()[i] != last by {
        assert(names[i] != names[n]);
    }
    lemma_stored_frame(names.drop_last(), disk, p, last, closed(disk[last]));
}

/// Replaying the segments of a clean disk gives back every stored record, in
/// order.
pub proof fn lemma_replay_gives_stored<
    T,
    R: Fn(&String) -> Result<Vec<u8>, StoreError>,
    F: Fn(&str) -> Result<T, String>,
>(
    files: Seq<String>,
    names: Seq<Seq<char>>,
    disk: Disk,
    read: R,
    parse: F,
    p: spec_fn(Seq<char>) -> Result<T, String>,
    result: Result<Vec<T>, StoreError>,
)
    requires
        texts(files) == names,
        forall|i: int| 0 <= i < names.len() ==> disk.contains_key(#[trigger] names[i]),
        files_decode(names, disk, p),
        serves(read, disk),
        computes(parse, p),
        replay_yields(files, read, parse, result),
    ensures
        result is Ok,
        result->Ok_0@ == stored(names, disk, p),
{
    match result {
        Ok(records) => {
            let batches = choose|batches: Seq<Batch<T>>| #[trigger]
                loaded_prefix(files, read, parse, batches) && batches.len() == files.len()
                    && records@ == chain(batches);
            assert forall|i: int| 0 <= i < batches.len() implies (#[trigger] batches[i]).records@
                == records_in(disk[names[i]], p) by {
                assert(files[i]@ == names[i]);
                lemma_load_back(
                    disk,
                    names[i],
                    false,
                    read,
                    parse,
                    p,
                    records_in(disk[names[i]], p),
                    Ok(batches[i]),
                );
            }
            lemma_chain_is_stored(batches, names, disk, p);
        },
        Err(error) => {
            let batches = choose|batches: Seq<Batch<T>>| #[trigger]
                loaded_prefix(files, read, parse, batches) && batches.len() < files.len()
                    && load_yields(
                    files[batches.len() as int]@,
                    false,
                    read,
                    parse,
                    Err::<Batch<T>, StoreError>(error),
                );
            let k = batches.len() as int;
            assert(files[k]@ == names[k]);
            lemma_load_back(
                disk,
                names[k],
                false,
                read,
                parse,
                p,
                records_in(disk[names[k]], p),
                Err::<Batch<T>, StoreError>(error),
            );
        },
    }
}

/// Batches that hold the records of the files chain up to what is stored.
pub proof fn lemma_chain_is_stored<T>(
    batches: Seq<Batch<T>>,
    names: Seq<Seq<char>>,
    disk: Disk,
    p: spec_fn(Seq<char>) -> Result<T, String>,
)
    requires
        batches.len() == names.len(),
        forall|i: int|
            0 <= i < batches.len() ==> (#[trigger] batches[i]).records@ == records_in(
                disk[names[i]],
                p,
            ),
    ensures
        chain(batches) == stored(names, disk, p),
    decreases batches.len(),
{
    if batches.len() > 0 {
        let fewer = batches.drop_last();
        assert forall|i: int| 0 <= i < fewer.len() implies (#[trigger] fewer[i]).records@
            == records_in(disk[names.drop_last()[i]], p) by {
            assert(fewer[i] == batches[i]);
        }
        lemma_chain_is_stored(fewer, names.drop_last(), disk, p);
        assert(batches[batches.len() - 1].records@ == records_in(
            disk[names[names.len() - 1]],
            p,
        ));
    }
}

/// Lists without repetition that hold the same items are the same as bags.
proof fn lemma_same_items_same_bag<A>(a: Seq<A>, b: Seq<A>)
    requires
        a.no_duplicates(),
        b.no_duplicates(),
        forall|x: A| #[trigger] a.contains(x) <==> #[trigger] b.contains(x),
    ensures
        a.to_multiset() == b.to_multiset(),
{
    a.lemma_multiset_has_no_duplicates();
    b.lemma_multiset_has_no_duplicates();
    assert forall|x: A| a.to_multiset().count(x) == b.to_multiset().count(x) by {
        vstd::seq_lib::to_multiset_contains(a, x);
        vstd::seq_lib::to_multiset_contains(b, x);
    }
    assert(a.to_multiset() =~= b.to_multiset());
}

/// What is among the names, and that it comes but once.
proof fn lemma_among(files: Seq<String>, prefix: Seq<char>)
    requires
        texts(files).no_duplicates(),
    ensures
        segments_among(files, prefix).no_duplicates(),
        forall|x: Listed| #[trigger]
            segments_among(files, prefix).contains(x) <==> texts(files).contains(x.0)
                && segment_index(x.0, prefix) == Some(x.1),
    decreases files.len(),
{
    let among = segments_among(files, prefix);
    if files.len() > 0 {
        let n = files.len() - 1;
        let rest = files.drop_last();
        let fewer = segments_among(rest, prefix);
        assert(texts(rest) =~= texts(files).drop_last());
        assert forall|i: int, j: int|
            0 <= i < texts(rest).len() && 0 <= j < texts(rest).len() && i != j implies texts(
            rest,
        )[i] != texts(rest)[j] by {
            assert(texts(files)[i] != texts(files)[j]);
        }
        lemma_among(rest, prefix);
        let name = files.last()@;
        assert(texts(files)[n] == name);
        assert(!texts(rest).contains(name)) by {
            if texts(rest).contains(name) {
                let i = choose|i: int| 0 <= i < texts(rest).len() && texts(rest)[i] == name;
                assert(texts(files)[i] != texts(files)[n]);
            }
        }
        assert forall|x: Seq<char>| #[trigger] texts(files).contains(x) <==> (texts(rest).contains(x)
            || x == name) by {
            if texts(rest).contains(x) {
                let i = choose|i: int| 0 <= i < texts(rest).len() && texts(rest)[i] == x;
                assert(texts(files)[i] == x);
            }
            if x == name {
                assert(texts(files)[n] == x);
            }
            if texts(files).contains(x) && x != name {
                let i = choose|i: int| 0 <= i < texts(files).len() && texts(files)[i] == x;
                assert(texts(rest)[i] == x);
            }
        }
        match segment_index(name, prefix) {
            Some(index) => {
                let entry: Listed = (name, index);
                assert(among == fewer.push(entry));
                assert(!fewer.contains(entry));
                assert forall|i: int, j: int|
                    0 <= i < among.len() && 0 <= j < among.len() && i != j implies among[i]
                    != among[j] by {
                    if i == fewer.len() {
                        assert(fewer.contains(fewer[j]));
                    } else if j == fewer.len() {
                        assert(fewer.contains(fewer[i]));
                    } else {
                        assert(fewer[i] != fewer[j]);
                    }
                }
                assert forall|x: Listed| #[trigger] among.contains(x) <==> texts(files).contains(
                    x.0,
                ) && segment_index(x.0, prefix) == Some(x.1) by {
                    if among.contains(x) {
                        let i = choose|i: int| 0 <= i < among.len() && among[i] == x;
                        if i < fewer.len() {
                            assert(fewer[i] == x);
                            assert(fewer.contains(x));
                        }
                    }
                    if texts(files).contains(x.0) && segment_index(x.0, prefix) == Some(x.1) {
                        if x.0 == name {
                            assert(among[fewer.len() as int] == x);
                        } else {
                            assert(fewer.contains(x));
                            let i = choose|i: int| 0 <= i < fewer.len() && fewer[i] == x;
                            assert(among[i] == x);
                        }
                    }
                }
            },
            None => {
                assert(among == fewer);
                assert forall|x: Listed| #[trigger] among.contains(x) <==> texts(files).contains(
                    x.0,
                ) && segment_index(x.0, prefix) == Some(x.1) by {}
            },
        }
    } else {
        assert(among =~= Seq::empty());
        assert forall|x: Listed| !(#[trigger] among.contains(x)) && !texts(files).contains(x.0) by {}
    }
}

/// The listing of a disk is its segments in order of their numbers.
pub proof fn lemma_listing_is_layout(
    files: Seq<String>,
    names: Seq<Seq<char>>,
    prefix: Seq<char>,
    next: u64,
    disk: Disk,
)
    requires
        laid_out(names, prefix, next, disk),
        lists_disk(files, disk),
    ensures
        listing_of(files, prefix) == indexed(names, prefix),
{
    let expected = indexed(names, prefix);
    let among = segments_among(files, prefix);
    lemma_names_distinct(names, prefix);
    lemma_indexes_below(names, prefix, next, disk);
    lemma_among(files, prefix);
    law_listing(files, prefix);
    assert forall|i: int, j: int|
        0 <= i < expected.len() && 0 <= j < expected.len() && i != j implies expected[i]
        != expected[j] by {
        assert(names[i] != names[j]);
    }
    assert forall|x: Listed| #[trigger] expected.contains(x) <==> #[trigger] among.contains(x) by {
        if expected.contains(x) {
            let i = choose|i: int| 0 <= i < expected.len() && expected[i] == x;
            assert(x.0 == names[i]);
            assert(disk.contains_key(names[i]));
            assert(well_named(names[i], prefix));
            assert(texts(files).contains(x.0));
        }
        if among.contains(x) {
            assert(texts(files).contains(x.0));
            assert(disk.contains_key(x.0));
            let i = choose|i: int| 0 <= i < names.len() && names[i] == x.0;
            assert(expected[i] == x);
        }
    }
    lemma_same_items_same_bag(expected, among);
    assert forall|i: int, j: int| 0 <= i < j < expected.len() implies listed_le(
        #[trigger] expected[i],
        #[trigger] expected[j],
    ) by {
        assert(well_named(names[i], prefix) && well_named(names[j], prefix));
        assert(index_in(names[i], prefix) < index_in(names[j], prefix));
        law_name_order_is_numeric(
            prefix,
            index_in(names[i], prefix),
            index_in(names[j], prefix),
        );
    }
    assert(sorted_by(expected, |x: Listed, y: Listed| listed_le(x, y)));
    law_listing_is_determined(listing_of(files, prefix), expected);
}

/// Opening a clean disk loads every segment in full, without repair.
pub proof fn lemma_open_gives_stored<
    T,
    R: Fn(&String) -> Result<Vec<u8>, StoreError>,
    F: Fn(&str) -> Result<T, String>,
>(
    names: Seq<Seq<char>>,
    prefix: Seq<char>,
    disk: Disk,
    read: R,
    parse: F,
    p: spec_fn(Seq<char>) -> Result<T, String>,
)
    requires
        forall|i: int| 0 <= i < names.len() ==> disk.contains_key(#[trigger] names[i]),
        files_decode(names, disk, p),
        serves(read, disk),
        computes(parse, p),
    ensures
        forall|error: StoreError| !open_fails::<T, R, F>(
            indexed(names, prefix),
            read,
            parse,
            error,
        ),
        forall|batches: Seq<Batch<T>>|
            #![trigger opened_prefix(indexed(names, prefix), read, parse, batches)]
            opened_prefix(indexed(names, prefix), read, parse, batches) ==> {
                forall|i: int|
                    0 <= i < batches.len() ==> {
                        let batch = #[trigger] batches[i];
                        &&& batch.records@ == records_in(disk[names[i]], p)
                        &&& batch.size == disk[names[i]].len()
                        &&& !batch.torn
                        &&& batch.unterminated == !ends_clean(disk[names[i]])
                    }
            },
{
    let listing = indexed(names, prefix);
    assert forall|batches: Seq<Batch<T>>|
        #![trigger opened_prefix(listing, read, parse, batches)]
        opened_prefix(listing, read, parse, batches) implies {
        forall|i: int|
            0 <= i < batches.len() ==> {
                let batch = #[trigger] batches[i];
                &&& batch.records@ == records_in(disk[names[i]], p)
                &&& batch.size == disk[names[i]].len()
                &&& !batch.torn
                &&& batch.unterminated == !ends_clean(disk[names[i]])
            }
    } by {
        assert forall|i: int| 0 <= i < batches.len() implies {
            let batch = #[trigger] batches[i];
            &&& batch.records@ == records_in(disk[names[i]], p)
            &&& batch.size == disk[names[i]].len()
            &&& !batch.torn
            &&& batch.unterminated == !ends_clean(disk[names[i]])
        } by {
            assert(listing[i].0 == names[i]);
            lemma_load_back(
                disk,
                names[i],
                i + 1 == listing.len(),
                read,
                parse,
                p,
                records_in(disk[names[i]], p),
                Ok(batches[i]),
            );
        }
    }
    assert forall|error: StoreError| !open_fails::<T, R, F>(listing, read, parse, error) by {
        if open_fails::<T, R, F>(listing, read, parse, error) {
            let batches = choose|batches: Seq<Batch<T>>| #[trigger]
                opened_prefix(listing, read, parse, batches) && batches.len() < listing.len()
                    && load_yields(
                    listing[batches.len() as int].0,
                    batches.len() + 1 == listing.len(),
                    read,
                    parse,
                    Err::<Batch<T>, StoreError>(error),
                );
            let k = batches.len() as int;
            assert(listing[k].0 == names[k]);
            lemma_load_back(
                disk,
                names[k],
                k + 1 == listing.len(),
                read,
                parse,
                p,
                records_in(disk[names[k]], p),
                Err::<Batch<T>, StoreError>(error),
            );
        }
    }
}

/// The disk with a torn line at the end of the named file.
pub open spec fn with_torn_tail(disk: Disk, name: Seq<char>, torn: Seq<u8>, newline: bool) -> Disk {
    disk.insert(name, disk[name] + framed(torn, newline))
}

/// Opening a disk whose last file ends in a torn line loads every segment as
/// if that line had never been written, and finds the tear.
pub proof fn lemma_open_finds_tear<
    T,
    R: Fn(&String) -> Result<Vec<u8>, StoreError>,
    F: Fn(&str) -> Result<T, String>,
>(
    names: Seq<Seq<char>>,
    prefix: Seq<char>,
    disk: Disk,
    torn: Seq<u8>,
    newline: bool,
    read: R,
    parse: F,
    p: spec_fn(Seq<char>) -> Result<T, String>,
)
    requires
        names.len() > 0,
        in_order(names, prefix),
        forall|i: int| 0 <= i < names.len() ==> disk.contains_key(#[trigger] names[i]),
        files_decode(names, disk, p),
        tail_clean(names, disk),
        is_one_line(torn),
        torn.len() > 0 || newline,
        forall|record: T| !#[trigger] line_reads_as(torn, p, record),
        serves(read, with_torn_tail(disk, names.last(), torn, newline)),
        computes(parse, p),
    ensures
        forall|error: StoreError| !open_fails::<T, R, F>(
            indexed(names, prefix),
            read,
            parse,
            error,
        ),
        forall|batches: Seq<Batch<T>>, i: int|
            #[trigger] opened_prefix(indexed(names, prefix), read, parse, batches) && 0 <= i
                < batches.len() ==> {
                let batch = #[trigger] batches[i];
                &&& batch.records@ == records_in(disk[names[i]], p)
                &&& batch.size == disk[names[i]].len()
                &&& batch.torn == (i == names.len() - 1)
                &&& batch.unterminated == !ends_clean(disk[names[i]])
            },
{
    let listing = indexed(names, prefix);
    let n = names.len() - 1;
    let last = names[n];
    let damaged = with_torn_tail(disk, last, torn, newline);
    lemma_names_distinct(names, prefix);
    assert forall|batches: Seq<Batch<T>>, i: int|
        #[trigger] opened_prefix(listing, read, parse, batches) && 0 <= i < batches.len() implies {
        let batch = #[trigger] batches[i];
        &&& batch.records@ == records_in(disk[names[i]], p)
        &&& batch.size == disk[names[i]].len()
        &&& batch.torn == (i == n)
        &&& batch.unterminated == !ends_clean(disk[names[i]])
    } by {
        assert(listing[i].0 == names[i]);
        if i == n {
            lemma_load_torn(
                damaged,
                last,
                disk[last],
                torn,
                newline,
                read,
                parse,
                p,
                records_in(disk[last], p),
                Ok(batches[i]),
            );
        } else {
            assert(names[i] != names[n]);
            lemma_load_back(
                damaged,
                names[i],
                false,
                read,
                parse,
                p,
                records_in(disk[names[i]], p),
                Ok(batches[i]),
            );
        }
    }
    assert forall|error: StoreError| !open_fails::<T, R, F>(listing, read, parse, error) by {
        if open_fails::<T, R, F>(listing, read, parse, error) {
            let batches = choose|batches: Seq<Batch<T>>| #[trigger]
                opened_prefix(listing, read, parse, batches) && batches.len() < listing.len()
                    && load_yields(
                    listing[batches.len() as int].0,
                    batches.len() + 1 == listing.len(),
                    read,
                    parse,
                    Err::<Batch<T>, StoreError>(error),
                );
            let k = batches.len() as int;
            assert(listing[k].0 == names[k]);
            if k == n {
                lemma_load_torn(
                    damaged,
                    last,
                    disk[last],
                    torn,
                    newline,
                    read,
                    parse,
                    p,
                    records_in(disk[last], p),
                    Err::<Batch<T>, StoreError>(error),
                );
            } else {
                assert(names[k] != names[n]);
                lemma_load_back(
                    damaged,
                    names[k],
                    false,
                    read,
                    parse,
                    p,
                    records_in(disk[names[k]], p),
                    Err::<Batch<T>, StoreError>(error),
                );
            }
        }
    }
}

/// The line after the lines that decode to `before` does not decode, and is
/// not a torn tail of the last file.
pub open spec fn corrupt_after<T>(
    bytes: Seq<u8>,
    last_file: bool,
    p: spec_fn(Seq<char>) -> Result<T, String>,
    before: Seq<T>,
) -> bool {
    let spans = line_spans(bytes);
    &&& before.len() < spans.len()
    &&& forall|i: int|
        0 <= i < before.len() ==> line_reads_as(
            span_bytes(bytes, #[trigger] spans[i]),
            p,
            before[i],
        )
    &&& forall|record: T|
        !#[trigger] line_reads_as(span_bytes(bytes, spans[before.len() as int]), p, record)
    &&& !(last_file && before.len() + 1 == spans.len())
}

/// Opening a disk stops at the first file with a corrupt line and names the
/// file and the line.
pub proof fn lemma_open_names_corrupt_line<
    T,
    R: Fn(&String) -> Result<Vec<u8>, StoreError>,
    F: Fn(&str) -> Result<T, String>,
>(
    names: Seq<Seq<char>>,
    prefix: Seq<char>,
    disk: Disk,
    read: R,
    parse: F,
    p: spec_fn(Seq<char>) -> Result<T, String>,
    k: int,
    before: Seq<T>,
)
    requires
        0 <= k < names.len(),
        forall|i: int| 0 <= i < names.len() ==> disk.contains_key(#[trigger] names[i]),
        forall|i: int| 0 <= i < k ==> all_decode(disk[#[trigger] names[i]], p),
        corrupt_after(disk[names[k]], k == names.len() - 1, p, before),
        serves(read, disk),
        computes(parse, p),
    ensures
        forall|batches: Seq<Batch<T>>|
            #[trigger] opened_prefix(indexed(names, prefix), read, parse, batches)
                ==> batches.len() <= k,
        forall|error: StoreError|
            #[trigger] open_fails::<T, R, F>(indexed(names, prefix), read, parse, error) ==> (
            error matches StoreError::Corrupt { segment, line, .. } && segment@ == names[k] && line
                == before.len() + 1),
{
    let listing = indexed(names, prefix);
    let bytes = disk[names[k]];
    assert forall|batches: Seq<Batch<T>>|
        #[trigger] opened_prefix(listing, read, parse, batches) implies batches.len() <= k by {
        if batches.len() > k {
            let batch = batches[k];
            assert(listing[k].0 == names[k]);
            assert(load_yields(names[k], k + 1 == names.len(), read, parse, Ok(batch)));
            let got = choose|got: Seq<u8>| #[trigger]
                served(read, names[k], got) && batch_of(
                    got,
                    names[k],
                    k + 1 == names.len(),
                    parse,
                    batch,
                );
            assert(got == bytes);
            law_corrupt_line(
                bytes,
                names[k],
                k + 1 == names.len(),
                parse,
                p,
                before,
                Ok((batch.records, batch.size)),
            );
        }
    }
    assert forall|error: StoreError|
        #[trigger] open_fails::<T, R, F>(listing, read, parse, error) implies (
    error matches StoreError::Corrupt { segment, line, .. } && segment@ == names[k] && line
        == before.len() + 1) by {
        let batches = choose|batches: Seq<Batch<T>>| #[trigger]
            opened_prefix(listing, read, parse, batches) && batches.len() < listing.len()
                && load_yields(
                listing[batches.len() as int].0,
                batches.len() + 1 == listing.len(),
                read,
                parse,
                Err::<Batch<T>, StoreError>(error),
            );
        let m = batches.len() as int;
        let last_file = m + 1 == names.len();
        assert(listing[m].0 == names[m]);
        if m < k {
            lemma_load_back(
                disk,
                names[m],
                last_file,
                read,
                parse,
                p,
                records_in(disk[names[m]], p),
                Err::<Batch<T>, StoreError>(error),
            );
        } else {
            assert(!refused(read, names[k], error));
            let got = choose|got: Seq<u8>| #[trigger]
                served(read, names[k], got) && read_yields(
                    got,
                    names[k],
                    last_file,
                    parse,
                    Err::<(Vec<T>, u64), StoreError>(error),
                );
            assert(got == bytes);
            law_corrupt_line(
                bytes,
                names[k],
                last_file,
                parse,
                p,
                before,
                Err::<(Vec<T>, u64), StoreError>(error),
            );
        }
    }
}

} // verus!

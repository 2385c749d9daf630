//! Sets of dedup keys, and lists of them as they are saved.

use std::collections::BTreeSet;
use vstd::prelude::*;

verus! {

/// Put every key of the list into the set.
pub fn insert_keys(set: &mut BTreeSet<(u64, u32)>, keys: &Vec<(u64, u32)>)
    ensures
        final(set)@ == old(set)@.union(keys@.to_set()),
{
    let ghost before = set@;
    let mut i: usize = 0;
    assert(keys@.take(0).to_set() =~= Set::empty());
    assert(set@ =~= before.union(keys@.take(0).to_set()));
    while i < keys.len()
        invariant
            i <= keys.len(),
            set@ == before.union(keys@.take(i as int).to_set()),
        decreases keys.len() - i,
    {
        set.insert(keys[i]);
        proof {
            let part = keys@.take(i as int);
            assert(keys@.take(i + 1) =~= part.push(keys@[i as int]));
            part.lemma_push_to_set_commute(keys@[i as int]);
            assert(set@ =~= before.union(keys@.take(i + 1).to_set()));
        }
        i += 1;
    }
    assert(keys@.take(i as int) =~= keys@);
}

/// The keys of the set, each once.
pub fn list_keys(set: &BTreeSet<(u64, u32)>) -> (keys: Vec<(u64, u32)>)
    ensures
        keys@.to_set() == set@,
        keys@.no_duplicates(),
{
    let mut keys: Vec<(u64, u32)> = Vec::new();
    for key in it: set.iter()
        invariant
            keys@ == it.seq().unref().take(it.index()),
            it.seq().unref().to_set() == set@,
            it.seq().unref().no_duplicates(),
            it.index() == it.seq().len() ==> keys@ == it.seq().unref(),
    {
        keys.push(*key);
        assert(it.seq().unref().take(it.seq().len() as int) =~= it.seq().unref());
    }
    keys
}

} // verus!

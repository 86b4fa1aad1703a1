//! Keys of the standard hash maps, as vectors.

use std::collections::HashMap;
use vstd::prelude::*;

verus! {

broadcast use vstd::std_specs::hash::group_hash_axioms;

/// The keys of a map with 32-bit keys, each once, in no particular order.
pub fn small_keys<V>(map: &HashMap<u32, V>) -> (r: Vec<u32>)
    ensures
        r@.no_duplicates(),
        r@.to_set() == map@.dom(),
{
    let mut out: Vec<u32> = Vec::new();
    let walker = map.keys();
    let ghost walk = vstd::std_specs::iter::IteratorSpec::remaining(&walker);
    for key in it: walker
        invariant
            it.seq() == walk,
            out@.len() == it.index(),
            forall|i: int| #![trigger out@[i]] 0 <= i < it.index() ==> out@[i] == *walk[i],
    {
        out.push(*key);
    }
    proof {
        assert(out@ =~= walk.unref());
    }
    out
}

/// The keys of a map with 64-bit keys, each once, in no particular order.
pub fn wide_keys<V>(map: &HashMap<u64, V>) -> (r: Vec<u64>)
    ensures
        r@.no_duplicates(),
        r@.to_set() == map@.dom(),
{
    let mut out: Vec<u64> = Vec::new();
    let walker = map.keys();
    let ghost walk = vstd::std_specs::iter::IteratorSpec::remaining(&walker);
    for key in it: walker
        invariant
            it.seq() == walk,
            out@.len() == it.index(),
            forall|i: int| #![trigger out@[i]] 0 <= i < it.index() ==> out@[i] == *walk[i],
    {
        out.push(*key);
    }
    proof {
        assert(out@ =~= walk.unref());
    }
    out
}

} // verus!

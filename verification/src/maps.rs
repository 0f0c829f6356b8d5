use std::collections::HashMap;
use vstd::prelude::*;
use vstd::std_specs::iter::IteratorSpec;

verus! {

broadcast use vstd::std_specs::hash::group_hash_axioms;

/// The keys of a map, each once, in the map's iteration order.
pub fn keys_of<V>(m: &HashMap<i64, V>) -> (ks: Vec<i64>)
    ensures
        ks@.no_duplicates(),
        forall|k: i64| m@.contains_key(k) <==> ks@.contains(k),
{
    let mut ks: Vec<i64> = Vec::new();
    let ghost full: Seq<&i64> = m.keys().remaining();
    for k in it: m.keys()
        invariant
            it.seq() == full,
            full.unref().to_set() == m@.dom(),
            full.no_duplicates(),
            full.len() == m@.dom().len(),
            ks@ == full.take(it.index() as int).unref(),
    {
        ks.push(*k);
    }
    assert(ks@ =~= full.unref());
    ks
}

} // verus!

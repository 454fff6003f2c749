//! Association sequences: keyed lookup where the latest entry for a key
//! wins, shared by the file store and the table value.

use vstd::prelude::*;

verus! {

/// The value bound to `k` in `m`, taking the latest entry when a key
/// occurs more than once.
pub open spec fn lookup<K, V>(m: Seq<(K, V)>, k: K) -> Option<V>
    decreases m.len(),
{
    if m.len() == 0 {
        None
    } else if m.last().0 == k {
        Some(m.last().1)
    } else {
        lookup(m.drop_last(), k)
    }
}

/// Appending an entry rebinds exactly its own key.
pub proof fn lemma_lookup_push<K, V>(m: Seq<(K, V)>, e: (K, V), k: K)
    ensures
        lookup(m.push(e), k) == (if e.0 == k {
            Some(e.1)
        } else {
            lookup(m, k)
        }),
{
    assert(m.push(e).drop_last() =~= m);
    assert(m.push(e).last() == e);
}

} // verus!

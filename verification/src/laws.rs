//! The container's laws, stated over the entry mapping and the
//! spec-level constructions that the public contracts use, and proved
//! once and for all.

use vstd::prelude::*;

use crate::model::ONE_WORD;
use crate::model::identity_map;
use crate::model::transpose_map;

verus! {

/// A word just stored at a coordinate is exactly what a lookup at that
/// coordinate yields afterwards.
pub proof fn lemma_insert_then_peek(m: Map<(u64, u64), u64>, k: (u64, u64), v: u64)
    ensures
        m.insert(k, v).dom().contains(k),
        m.insert(k, v)[k] == v,
{
}

/// Storing a word and then clearing the same coordinate removes exactly
/// the stored word and leaves the cell absent.
pub proof fn lemma_insert_then_clear_at(m: Map<(u64, u64), u64>, k: (u64, u64), v: u64)
    ensures
        m.insert(k, v)[k] == v,
        !m.insert(k, v).remove(k).dom().contains(k),
{
}

/// Clearing a coordinate that holds no cell leaves the mapping as it
/// was: absence is a normal outcome, not a mutation.
pub proof fn lemma_clear_at_absent(m: Map<(u64, u64), u64>, k: (u64, u64))
    requires
        !m.dom().contains(k),
    ensures
        m.remove(k) == m,
{
    assert(m.remove(k) =~= m);
}

/// The identity mapping of order `n` holds exactly `n` cells: the word
/// for one at each diagonal coordinate below `n`, and nothing anywhere
/// else.
pub proof fn lemma_identity_entries(n: int)
    requires
        0 <= n <= u64::MAX,
    ensures
        identity_map(n).dom().finite(),
        identity_map(n).dom().len() == n,
        forall|i: int|
            0 <= i < n ==> #[trigger] identity_map(n).contains_pair(
                ((i as u64), (i as u64)),
                ONE_WORD,
            ),
        forall|k: (u64, u64)|
            #[trigger] identity_map(n).dom().contains(k) ==> k.0 == k.1 && (k.0 as int) < n,
    decreases n,
{
    if n <= 0 {
    } else {
        lemma_identity_entries(n - 1);
        let prev = identity_map(n - 1);
        let key = ((n - 1) as u64, (n - 1) as u64);
        assert(!prev.dom().contains(key));
        assert(identity_map(n) == prev.insert(key, ONE_WORD));
        assert forall|i: int| 0 <= i < n implies #[trigger] identity_map(n).contains_pair(
            ((i as u64), (i as u64)),
            ONE_WORD,
        ) by {
            if i < n - 1 {
                assert(prev.contains_pair(((i as u64), (i as u64)), ONE_WORD));
                assert((i as u64, i as u64) != key);
            }
        };
    }
}

/// Transposing twice restores the original mapping: every cell returns
/// to its coordinates with its word.
pub proof fn lemma_transpose_round_trip(m: Map<(u64, u64), u64>)
    ensures
        transpose_map(transpose_map(m)) == m,
{
    broadcast use vstd::map_lib::lemma_map_new_domain, vstd::map_lib::lemma_map_new_values;

    assert(transpose_map(transpose_map(m)) =~= m);
}

} // verus!

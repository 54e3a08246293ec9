//! The mathematical model of the matrix: the key-value mapping described
//! by a sequence of stored cells, and the spec-level constructions that
//! the public contracts are stated over.

use vstd::prelude::*;

verus! {

/// A stored cell: row index, column index, and the cell's 64-bit value word.
pub type Entry = (u64, u64, u64);

/// The 64-bit word that diagonal cells of an identity matrix hold:
/// the IEEE-754 bit pattern of the double-precision number one.
pub const ONE_WORD: u64 = 0x3FF0_0000_0000_0000;

/// The coordinate pair of a stored cell.
pub open spec fn entry_key(e: Entry) -> (u64, u64) {
    (e.0, e.1)
}

/// The key-value mapping described by a sequence of stored cells,
/// later cells overriding earlier ones at the same coordinates.
pub open spec fn map_of(s: Seq<Entry>) -> Map<(u64, u64), u64>
    decreases s.len(),
{
    if s.len() == 0 {
        Map::empty()
    } else {
        map_of(s.drop_last()).insert(entry_key(s.last()), s.last().2)
    }
}

/// No two stored cells share a coordinate pair.
pub open spec fn unique_keys(s: Seq<Entry>) -> bool {
    forall|i: int, j: int|
        0 <= i < j < s.len() ==> entry_key(s[i]) != entry_key(s[j])
}

/// Every cell of the sequence lies inside the given shape.
pub open spec fn entries_in_bounds(s: Seq<Entry>, rows: u64, cols: u64) -> bool {
    forall|i: int| 0 <= i < s.len() ==> s[i].0 < rows && s[i].1 < cols
}

/// A coordinate is in a map's domain exactly when some cell of the
/// sequence carries it.
pub proof fn lemma_map_of_contains_key(s: Seq<Entry>, k: (u64, u64))
    ensures
        map_of(s).dom().contains(k) <==> exists|i: int|
            0 <= i < s.len() && entry_key(s[i]) == k,
    decreases s.len(),
{
    if s.len() == 0 {
    } else {
        let front = s.drop_last();
        lemma_map_of_contains_key(front, k);
        if entry_key(s.last()) == k {
            assert(entry_key(s[s.len() - 1]) == k);
        } else {
            if exists|i: int| 0 <= i < front.len() && entry_key(front[i]) == k {
                let i = choose|i: int| 0 <= i < front.len() && entry_key(front[i]) == k;
                assert(entry_key(s[i]) == k);
            }
            if exists|i: int| 0 <= i < s.len() && entry_key(s[i]) == k {
                let i = choose|i: int| 0 <= i < s.len() && entry_key(s[i]) == k;
                assert(i < s.len() - 1);
                assert(entry_key(front[i]) == k);
            }
        }
    }
}

/// With no repeated coordinates, the mapping holds a pair exactly when
/// the sequence holds that cell.
pub proof fn lemma_map_of_contains_pair(s: Seq<Entry>, k: (u64, u64), v: u64)
    requires
        unique_keys(s),
    ensures
        map_of(s).contains_pair(k, v) <==> exists|i: int|
            0 <= i < s.len() && s[i] == (k.0, k.1, v),
    decreases s.len(),
{
    if s.len() == 0 {
    } else {
        let front = s.drop_last();
        assert(unique_keys(front)) by {
            assert(forall|i: int, j: int|
                0 <= i < j < front.len() ==> entry_key(s[i]) != entry_key(s[j]));
        }
        lemma_map_of_contains_pair(front, k, v);
        lemma_map_of_contains_key(front, k);
        if entry_key(s.last()) == k {
            // The last cell decides the value at k; uniqueness rules out any
            // earlier cell with the same coordinates.
            assert(forall|i: int|
                0 <= i < s.len() - 1 ==> entry_key(s[i]) != k);
            if map_of(s).contains_pair(k, v) {
                assert(s[s.len() - 1] == (k.0, k.1, v));
            }
            if exists|i: int| 0 <= i < s.len() && s[i] == (k.0, k.1, v) {
                let i = choose|i: int| 0 <= i < s.len() && s[i] == (k.0, k.1, v);
                assert(entry_key(s[i]) == k);
                assert(i == s.len() - 1);
            }
        } else {
            if exists|i: int| 0 <= i < front.len() && front[i] == (k.0, k.1, v) {
                let i = choose|i: int| 0 <= i < front.len() && front[i] == (k.0, k.1, v);
                assert(s[i] == (k.0, k.1, v));
            }
            if exists|i: int| 0 <= i < s.len() && s[i] == (k.0, k.1, v) {
                let i = choose|i: int| 0 <= i < s.len() && s[i] == (k.0, k.1, v);
                assert(entry_key(s[i]) == k);
                assert(i < s.len() - 1);
                assert(front[i] == (k.0, k.1, v));
            }
        }
    }
}

/// With no repeated coordinates, the mapping has exactly one key per cell.
pub proof fn lemma_map_of_len(s: Seq<Entry>)
    requires
        unique_keys(s),
    ensures
        map_of(s).dom().finite(),
        map_of(s).dom().len() == s.len(),
    decreases s.len(),
{
    if s.len() == 0 {
    } else {
        let front = s.drop_last();
        assert(unique_keys(front)) by {
            assert(forall|i: int, j: int|
                0 <= i < j < front.len() ==> entry_key(s[i]) != entry_key(s[j]));
        }
        lemma_map_of_len(front);
        lemma_map_of_contains_key(front, entry_key(s.last()));
        assert(!map_of(front).dom().contains(entry_key(s.last()))) by {
            if exists|i: int|
                0 <= i < front.len() && entry_key(front[i]) == entry_key(s.last()) {
                let i = choose|i: int|
                    0 <= i < front.len() && entry_key(front[i]) == entry_key(s.last());
                assert(entry_key(s[i]) == entry_key(s[s.len() - 1]));
                assert(false);
            }
        }
        assert(map_of(s).dom() =~= map_of(front).dom().insert(entry_key(s.last())));
    }
}

/// Appending a cell inserts its pair into the mapping.
pub proof fn lemma_map_of_push(s: Seq<Entry>, e: Entry)
    ensures
        map_of(s.push(e)) == map_of(s).insert(entry_key(e), e.2),
{
    assert(s.push(e).drop_last() =~= s);
    assert(s.push(e).last() == e);
}

/// Overwriting the cell that already carries a coordinate pair updates
/// the mapping at that pair alone.
pub proof fn lemma_map_of_update(s: Seq<Entry>, i: int, e: Entry)
    requires
        unique_keys(s),
        0 <= i < s.len(),
        entry_key(s[i]) == entry_key(e),
    ensures
        unique_keys(s.update(i, e)),
        map_of(s.update(i, e)) == map_of(s).insert(entry_key(e), e.2),
{
    let t = s.update(i, e);
    assert(forall|a: int| 0 <= a < t.len() ==> entry_key(t[a]) == entry_key(s[a]));
    assert(unique_keys(t));
    let m1 = map_of(t);
    let m2 = map_of(s).insert(entry_key(e), e.2);
    assert forall|k: (u64, u64)| m1.dom().contains(k) == m2.dom().contains(k) by {
        lemma_map_of_contains_key(t, k);
        lemma_map_of_contains_key(s, k);
        if exists|a: int| 0 <= a < t.len() && entry_key(t[a]) == k {
            let a = choose|a: int| 0 <= a < t.len() && entry_key(t[a]) == k;
            assert(entry_key(s[a]) == k);
        }
        if exists|a: int| 0 <= a < s.len() && entry_key(s[a]) == k {
            let a = choose|a: int| 0 <= a < s.len() && entry_key(s[a]) == k;
            assert(entry_key(t[a]) == k);
        }
    }
    assert forall|k: (u64, u64)| #[trigger] m1.dom().contains(k) implies m1[k] == m2[k] by {
        lemma_map_of_contains_pair(t, k, m1[k]);
        let a = choose|a: int| 0 <= a < t.len() && t[a] == (k.0, k.1, m1[k]);
        if k == entry_key(e) {
            // Only index i carries this coordinate pair in t.
            assert(entry_key(t[a]) == entry_key(t[i]));
            assert(a == i);
            assert(m1[k] == e.2);
        } else {
            assert(a != i);
            assert(s[a] == (k.0, k.1, m1[k]));
            lemma_map_of_contains_pair(s, k, m1[k]);
            assert(map_of(s).contains_pair(k, m1[k]));
        }
    }
    assert(m1 =~= m2);
}

/// Removing the cell that carries a coordinate pair removes that pair
/// from the mapping.
pub proof fn lemma_map_of_remove(s: Seq<Entry>, i: int)
    requires
        unique_keys(s),
        0 <= i < s.len(),
    ensures
        unique_keys(s.remove(i)),
        map_of(s.remove(i)) == map_of(s).remove(entry_key(s[i])),
{
    let t = s.remove(i);
    assert(forall|a: int| 0 <= a < i ==> t[a] == s[a]);
    assert(forall|a: int| i <= a < t.len() ==> t[a] == s[a + 1]);
    assert forall|a: int, b: int| 0 <= a < b < t.len() implies
        entry_key(t[a]) != entry_key(t[b]) by {
        let sa: int = if a < i { a } else { a + 1 };
        let sb: int = if b < i { b } else { b + 1 };
        assert(t[a] == s[sa]);
        assert(t[b] == s[sb]);
    }
    let m1 = map_of(t);
    let m2 = map_of(s).remove(entry_key(s[i]));
    assert forall|k: (u64, u64)| m1.dom().contains(k) == m2.dom().contains(k) by {
        lemma_map_of_contains_key(t, k);
        lemma_map_of_contains_key(s, k);
        if exists|a: int| 0 <= a < t.len() && entry_key(t[a]) == k {
            let a = choose|a: int| 0 <= a < t.len() && entry_key(t[a]) == k;
            let sa: int = if a < i { a } else { a + 1 };
            assert(entry_key(s[sa]) == k);
            assert(k != entry_key(s[i]));
        }
        if exists|a: int| 0 <= a < s.len() && entry_key(s[a]) == k && k != entry_key(s[i]) {
            let a = choose|a: int| 0 <= a < s.len() && entry_key(s[a]) == k;
            assert(a != i);
            let ta: int = if a < i { a } else { a - 1 };
            assert(entry_key(t[ta]) == k);
        }
    }
    assert forall|k: (u64, u64)| #[trigger] m1.dom().contains(k) implies m1[k] == m2[k] by {
        lemma_map_of_contains_pair(t, k, m1[k]);
        let a = choose|a: int| 0 <= a < t.len() && t[a] == (k.0, k.1, m1[k]);
        let sa: int = if a < i { a } else { a + 1 };
        assert(s[sa] == (k.0, k.1, m1[k]));
        lemma_map_of_contains_pair(s, k, m1[k]);
        assert(map_of(s).contains_pair(k, m1[k]));
        assert(k != entry_key(s[i]));
    }
    assert(m1 =~= m2);
}

/// The mapping of a matrix's transpose: every pair `(r, c) -> v` becomes
/// `(c, r) -> v`.
pub open spec fn transpose_map(m: Map<(u64, u64), u64>) -> Map<(u64, u64), u64> {
    Map::new(
        |k: (u64, u64)| m.dom().contains((k.1, k.0)),
        |k: (u64, u64)| m[(k.1, k.0)],
    )
}

/// Transposing commutes with inserting one pair.
pub proof fn lemma_transpose_insert(m: Map<(u64, u64), u64>, k: (u64, u64), v: u64)
    ensures
        transpose_map(m.insert(k, v)) == transpose_map(m).insert((k.1, k.0), v),
{
    broadcast use vstd::map_lib::lemma_map_new_domain, vstd::map_lib::lemma_map_new_values;

    assert(transpose_map(m.insert(k, v)) =~= transpose_map(m).insert((k.1, k.0), v));
}

/// Transposing the empty mapping yields the empty mapping.
pub proof fn lemma_transpose_empty()
    ensures
        transpose_map(Map::<(u64, u64), u64>::empty()) == Map::<(u64, u64), u64>::empty(),
{
    assert(transpose_map(Map::<(u64, u64), u64>::empty()) =~= Map::<(u64, u64), u64>::empty());
}

/// A sequence whose cells are the coordinate-swapped cells of another
/// describes the transposed mapping.
pub proof fn lemma_map_of_swapped(s: Seq<Entry>, t: Seq<Entry>)
    requires
        t.len() == s.len(),
        forall|i: int| 0 <= i < s.len() ==> t[i] == (s[i].1, s[i].0, s[i].2),
        unique_keys(s),
    ensures
        unique_keys(t),
        map_of(t) == transpose_map(map_of(s)),
{
    assert forall|a: int, b: int| 0 <= a < b < t.len() implies
        entry_key(t[a]) != entry_key(t[b]) by {
        assert(entry_key(s[a]) != entry_key(s[b]));
    }
    let m1 = map_of(t);
    let m2 = transpose_map(map_of(s));
    assert forall|k: (u64, u64)| m1.dom().contains(k) == m2.dom().contains(k) by {
        lemma_map_of_contains_key(t, k);
        lemma_map_of_contains_key(s, (k.1, k.0));
        if exists|a: int| 0 <= a < t.len() && entry_key(t[a]) == k {
            let a = choose|a: int| 0 <= a < t.len() && entry_key(t[a]) == k;
            assert(entry_key(s[a]) == (k.1, k.0));
        }
        if exists|a: int| 0 <= a < s.len() && entry_key(s[a]) == (k.1, k.0) {
            let a = choose|a: int| 0 <= a < s.len() && entry_key(s[a]) == (k.1, k.0);
            assert(entry_key(t[a]) == k);
        }
    }
    assert forall|k: (u64, u64)| #[trigger] m1.dom().contains(k) implies m1[k] == m2[k] by {
        lemma_map_of_contains_pair(t, k, m1[k]);
        let a = choose|a: int| 0 <= a < t.len() && t[a] == (k.0, k.1, m1[k]);
        assert(s[a] == (k.1, k.0, m1[k]));
        lemma_map_of_contains_pair(s, (k.1, k.0), m1[k]);
        assert(map_of(s).contains_pair((k.1, k.0), m1[k]));
    }
    assert(m1 =~= m2);
}

/// The mapping of the identity matrix of order `n`: each diagonal
/// coordinate up to `n` carries the word for one.
pub open spec fn identity_map(n: int) -> Map<(u64, u64), u64>
    decreases n,
{
    if n <= 0 {
        Map::empty()
    } else {
        identity_map(n - 1).insert((((n - 1) as u64), ((n - 1) as u64)), ONE_WORD)
    }
}

/// The mapping after storing each triplet of a sequence in order.
pub open spec fn apply_triplets(m: Map<(u64, u64), u64>, ts: Seq<Entry>) -> Map<(u64, u64), u64>
    decreases ts.len(),
{
    if ts.len() == 0 {
        m
    } else {
        apply_triplets(m, ts.drop_last()).insert(entry_key(ts.last()), ts.last().2)
    }
}

/// Storing one more triplet inserts its pair.
pub proof fn lemma_apply_triplets_push(m: Map<(u64, u64), u64>, ts: Seq<Entry>, e: Entry)
    ensures
        apply_triplets(m, ts.push(e)) == apply_triplets(m, ts).insert(entry_key(e), e.2),
{
    assert(ts.push(e).drop_last() =~= ts);
    assert(ts.push(e).last() == e);
}

/// Whether a triplet lies outside the given shape.
pub open spec fn triplet_oob(e: Entry, rows: u64, cols: u64) -> bool {
    e.0 >= rows || e.1 >= cols
}

/// The index of the first triplet outside the shape (the length when
/// every triplet is inside).
pub open spec fn first_oob(ts: Seq<Entry>, rows: u64, cols: u64) -> int
    decreases ts.len(),
{
    if ts.len() == 0 {
        0
    } else if triplet_oob(ts[0], rows, cols) {
        0
    } else {
        1 + first_oob(ts.drop_first(), rows, cols)
    }
}

/// `first_oob` names the first offending index.
pub proof fn lemma_first_oob(ts: Seq<Entry>, rows: u64, cols: u64, j: int)
    requires
        0 <= j < ts.len(),
        triplet_oob(ts[j], rows, cols),
        forall|i: int| 0 <= i < j ==> !triplet_oob(ts[i], rows, cols),
    ensures
        first_oob(ts, rows, cols) == j,
    decreases j,
{
    if j == 0 {
    } else {
        let rest = ts.drop_first();
        assert(forall|i: int| 0 <= i < rest.len() ==> rest[i] == ts[i + 1]);
        lemma_first_oob(rest, rows, cols, j - 1);
    }
}

/// The dense contents of one row: the stored word at each column, and
/// the zero word where nothing is stored.
pub open spec fn dense_row(m: Map<(u64, u64), u64>, r: u64, width: nat) -> Seq<u64> {
    Seq::new(width, |c: int| if m.dom().contains((r, c as u64)) {
        m[(r, c as u64)]
    } else {
        0u64
    })
}

/// The compressed-row view is a faithful rendering of a mapping: the
/// offset sequence brackets, for each row, a run of column/value pairs
/// that holds exactly that row's stored cells, columns strictly
/// ascending.
pub open spec fn csr_valid(
    nrows: int,
    offsets: Seq<u64>,
    cols: Seq<u64>,
    vals: Seq<u64>,
    m: Map<(u64, u64), u64>,
) -> bool {
    &&& offsets.len() == nrows + 1
    &&& vals.len() == cols.len()
    &&& nrows >= 0
    &&& offsets[0] == 0
    &&& offsets[nrows] as int == cols.len()
    &&& forall|r: int| 0 <= r < nrows ==> #[trigger] offsets[r] <= offsets[r + 1]
    &&& forall|r: int, k: int|
        #![trigger offsets[r], cols[k]]
        0 <= r < nrows && offsets[r] as int <= k < offsets[r + 1] as int
            ==> m.contains_pair(((r as u64), cols[k]), vals[k])
    &&& forall|r: int, k1: int, k2: int|
        #![trigger offsets[r], cols[k1], cols[k2]]
        0 <= r < nrows && offsets[r] as int <= k1 < k2 < offsets[r + 1] as int
            ==> cols[k1] < cols[k2]
    &&& forall|k: (u64, u64)|
        #[trigger] m.dom().contains(k) && (k.0 as int) < nrows
            ==> exists|j: int|
                offsets[k.0 as int] as int <= j < offsets[k.0 as int + 1] as int
                    && cols[j] == k.1
}

/// A key of the mapping lies inside the shape that bounds its cells.
pub proof fn lemma_map_keys_in_bounds(s: Seq<Entry>, rows: u64, cols: u64, key: (u64, u64))
    requires
        entries_in_bounds(s, rows, cols),
        map_of(s).dom().contains(key),
    ensures
        key.0 < rows,
        key.1 < cols,
{
    lemma_map_of_contains_key(s, key);
    let i = choose|i: int| 0 <= i < s.len() && entry_key(s[i]) == key;
    assert(s[i].0 < rows && s[i].1 < cols);
}

/// A vector filled by scattering one row's slice of a valid compressed
/// view over a zeroed row is that row's dense contents.
pub proof fn lemma_scattered_row(
    nrows: int,
    offsets: Seq<u64>,
    cols: Seq<u64>,
    vals: Seq<u64>,
    m: Map<(u64, u64), u64>,
    rr: u64,
    width: nat,
    v: Seq<u64>,
)
    requires
        csr_valid(nrows, offsets, cols, vals, m),
        0 <= (rr as int) < nrows,
        width as int <= u64::MAX as int + 1,
        v.len() == width,
        forall|kk: int|
            #![trigger cols[kk]]
            offsets[rr as int] as int <= kk < offsets[rr as int + 1] as int
                ==> v[cols[kk] as int] == vals[kk],
        forall|cc: int|
            (0 <= cc < width as int && forall|kk: int|
                #![trigger cols[kk]]
                offsets[rr as int] as int <= kk < offsets[rr as int + 1] as int
                    ==> (cols[kk] as int) != cc) ==> #[trigger] v[cc] == 0u64,
    ensures
        v == dense_row(m, rr, width),
{
    let goal = dense_row(m, rr, width);
    assert forall|cc: int| 0 <= cc < width as int implies v[cc] == goal[cc] by {
        if m.dom().contains((rr, cc as u64)) {
            let kk = choose|kk: int|
                offsets[rr as int] as int <= kk < offsets[rr as int + 1] as int && cols[kk] == (
                cc as u64);
            assert(m.contains_pair((rr, cols[kk]), vals[kk]));
            assert(cols[kk] as int == cc);
            assert(v[cols[kk] as int] == vals[kk]);
            assert(v[cc] == vals[kk]);
        } else {
            assert forall|kk: int|
                #![trigger cols[kk]]
                offsets[rr as int] as int <= kk < offsets[rr as int + 1] as int implies (
            cols[kk] as int) != cc by {
                assert(m.contains_pair((rr, cols[kk]), vals[kk]));
            };
        }
    };
    assert(v =~= goal);
}

/// Offsets of a valid compressed view never step backwards between any
/// two rows.
pub proof fn lemma_offsets_monotone(
    nrows: int,
    offsets: Seq<u64>,
    cols: Seq<u64>,
    vals: Seq<u64>,
    m: Map<(u64, u64), u64>,
    a: int,
    b: int,
)
    requires
        csr_valid(nrows, offsets, cols, vals, m),
        0 <= a <= b <= nrows,
    ensures
        offsets[a] <= offsets[b],
    decreases b - a,
{
    if a < b {
        lemma_offsets_monotone(nrows, offsets, cols, vals, m, a + 1, b);
        assert(offsets[a] <= offsets[a + 1]);
    }
}

} // verus!

use vstd::prelude::*;
use crate::delta_matrix::DeltaMatrix;
use crate::graph_entity::{Edge, EdgeID};
use crate::sparse_matrix::{ElementType, Entry, ekey, key_lt, lemma_map_at, seq_map, sorted};

verus! {

/// The high bit of a cell: set when the cell holds a bundle handle.
pub const MSB: u64 = 0x8000_0000_0000_0000;

/// Whether a cell value is a single edge id (high bit clear).
pub fn single_edge(current_edge: EdgeID) -> (r: bool)
    ensures
        r == (current_edge < MSB),
{
    let r = current_edge & MSB == 0;
    assert(r == (current_edge < MSB)) by (bit_vector)
        requires
            r == (current_edge & 0x8000_0000_0000_0000u64 == 0),
            MSB == 0x8000_0000_0000_0000u64,
    ;
    r
}

/// Tags a value with the high bit.
pub fn set_msb(meid: EdgeID) -> (r: u64)
    ensures
        meid < MSB ==> r == meid + MSB,
        meid >= MSB ==> r == meid,
{
    let r = meid | MSB;
    assert(meid < MSB ==> r == meid + MSB) by (bit_vector)
        requires
            r == meid | 0x8000_0000_0000_0000u64,
            MSB == 0x8000_0000_0000_0000u64,
    ;
    assert(meid >= MSB ==> r == meid) by (bit_vector)
        requires
            r == meid | 0x8000_0000_0000_0000u64,
            MSB == 0x8000_0000_0000_0000u64,
    ;
    r
}

/// Clears the high bit of a value.
pub fn clear_msb(meid: EdgeID) -> (r: u64)
    ensures
        meid >= MSB ==> r == meid - MSB,
        meid < MSB ==> r == meid,
{
    let r = meid & !MSB;
    assert(meid >= MSB ==> r == meid - MSB) by (bit_vector)
        requires
            r == meid & !0x8000_0000_0000_0000u64,
            MSB == 0x8000_0000_0000_0000u64,
    ;
    assert(meid < MSB ==> r == meid) by (bit_vector)
        requires
            r == meid & !0x8000_0000_0000_0000u64,
            MSB == 0x8000_0000_0000_0000u64,
    ;
    r
}

/// Strictly increasing ids.
pub open spec fn ids_sorted(s: Seq<u64>) -> bool {
    forall|a: int, b: int| 0 <= a < b < s.len() ==> #[trigger] s[a] < #[trigger] s[b]
}

/// A bundle of edge ids kept by a tagged cell: at least two ids, increasing,
/// each with the high bit clear.
pub open spec fn bundle_ok(s: Seq<u64>) -> bool {
    &&& ids_sorted(s)
    &&& s.len() >= 2
    &&& forall|t: int| 0 <= t < s.len() ==> #[trigger] s[t] < MSB
}

pub proof fn lemma_sorted_len(s: Seq<u64>)
    requires
        ids_sorted(s),
    ensures
        s.to_set().len() == s.len(),
        s.no_duplicates(),
{
    assert forall|a: int, b: int| 0 <= a < s.len() && 0 <= b < s.len() && a != b implies s[a]
        != s[b] by {
        if a < b {
            assert(s[a] < s[b]);
        } else {
            assert(s[b] < s[a]);
        }
    }
    s.unique_seq_to_set();
}

/// Inserts `x` into an increasing vector that lacks it.
fn insert_sorted(v: &mut Vec<u64>, x: u64)
    requires
        ids_sorted(old(v)@),
        !old(v)@.contains(x),
    ensures
        ids_sorted(final(v)@),
        final(v)@.to_set() == old(v)@.to_set().insert(x),
        final(v)@.len() == old(v)@.len() + 1,
        forall|t: int| 0 <= t < final(v)@.len() ==> (#[trigger] final(v)@[t] == x || old(v)@.contains(
            final(v)@[t],
        )),
{
    let mut p: usize = 0;
    while p < v.len()
        invariant
            p <= v@.len(),
            forall|t: int| 0 <= t < p ==> #[trigger] v@[t] < x,
        ensures
            p <= v@.len(),
            forall|t: int| 0 <= t < p ==> #[trigger] v@[t] < x,
            p < v@.len() ==> v@[p as int] >= x,
        decreases v@.len() - p,
    {
        if v[p] >= x {
            break;
        }
        p = p + 1;
    }
    let ghost s = v@;
    v.insert(p, x);
    proof {
        let n = v@;
        assert(n == s.insert(p as int, x));
        assert forall|a: int, b: int| 0 <= a < b < n.len() implies #[trigger] n[a] < #[trigger] n[b] by {
            if b < p {
            } else if a > p {
                assert(s[a - 1] < s[b - 1]);
            } else if a == p {
                assert(n[b] == s[b - 1]);
                if b - 1 > p {
                    assert(s[p as int] < s[b - 1]);
                }
                assert(s[b - 1] != x);
            } else if b == p {
            } else {
                assert(s[a] < x);
            }
        }
        assert forall|y: u64| n.to_set().contains(y) == s.to_set().insert(x).contains(y) by {
            if n.contains(y) {
                let t = choose|t: int| 0 <= t < n.len() && n[t] == y;
                if t < p {
                    assert(s[t] == y);
                } else if t > p {
                    assert(s[t - 1] == y);
                }
            }
            if s.contains(y) {
                let t = choose|t: int| 0 <= t < s.len() && s[t] == y;
                if t < p {
                    assert(n[t] == y);
                } else {
                    assert(n[t + 1] == y);
                }
            }
            if y == x {
                assert(n[p as int] == x);
            }
        }
        assert(n.to_set() =~= s.to_set().insert(x));
        assert forall|t: int| 0 <= t < n.len() implies (#[trigger] n[t] == x || s.contains(n[t])) by {
            if t < p {
                assert(n[t] == s[t]);
            } else if t > p {
                assert(n[t] == s[t - 1]);
            }
        }
    }
}

/// Removes `x` from an increasing vector, if present.
fn remove_sorted(v: &mut Vec<u64>, x: u64)
    requires
        ids_sorted(old(v)@),
    ensures
        ids_sorted(final(v)@),
        final(v)@.to_set() == old(v)@.to_set().remove(x),
        old(v)@.contains(x) ==> final(v)@.len() == old(v)@.len() - 1,
        !old(v)@.contains(x) ==> final(v)@ == old(v)@,
        forall|t: int| 0 <= t < final(v)@.len() ==> old(v)@.contains(#[trigger] final(v)@[t]),
{
    let mut p: usize = 0;
    while p < v.len()
        invariant
            p <= v@.len(),
            forall|t: int| 0 <= t < p ==> #[trigger] v@[t] != x,
        ensures
            p <= v@.len(),
            forall|t: int| 0 <= t < p ==> #[trigger] v@[t] != x,
            p < v@.len() ==> v@[p as int] == x,
        decreases v@.len() - p,
    {
        if v[p] == x {
            break;
        }
        p = p + 1;
    }
    if p == v.len() {
        assert(v@.to_set() =~= v@.to_set().remove(x));
        return ;
    }
    let ghost s = v@;
    v.remove(p);
    proof {
        let n = v@;
        assert(n == s.remove(p as int));
        assert forall|a: int, b: int| 0 <= a < b < n.len() implies #[trigger] n[a] < #[trigger] n[b] by {
            let a2 = if a < p { a } else { a + 1 };
            let b2 = if b < p { b } else { b + 1 };
            assert(n[a] == s[a2] && n[b] == s[b2]);
            assert(s[a2] < s[b2]);
        }
        assert forall|y: u64| n.to_set().contains(y) == s.to_set().remove(x).contains(y) by {
            if n.contains(y) {
                let t = choose|t: int| 0 <= t < n.len() && n[t] == y;
                let t2 = if t < p { t } else { t + 1 };
                assert(s[t2] == y);
                if t2 < p {
                    assert(s[t2] < s[p as int]);
                } else {
                    assert(s[p as int] < s[t2]);
                }
            }
            if s.contains(y) && y != x {
                let t = choose|t: int| 0 <= t < s.len() && s[t] == y;
                let t2 = if t < p { t } else { t - 1 };
                assert(n[t2] == y);
            }
        }
        assert(n.to_set() =~= s.to_set().remove(x));
        assert forall|t: int| 0 <= t < n.len() implies s.contains(#[trigger] n[t]) by {
            let t2 = if t < p { t } else { t + 1 };
            assert(s[t2] == n[t]);
        }
    }
}

/// Whether `v` holds `x`.
fn contains_id(v: &Vec<u64>, x: u64) -> (r: bool)
    ensures
        r == v@.contains(x),
{
    let mut k: usize = 0;
    while k < v.len()
        invariant
            k <= v@.len(),
            forall|t: int| 0 <= t < k ==> v@[t] != x,
        decreases v@.len() - k,
    {
        if v[k] == x {
            return true;
        }
        k = k + 1;
    }
    false
}

/// Copies a vector of ids.
fn copy_ids(v: &Vec<u64>) -> (r: Vec<u64>)
    ensures
        r@ == v@,
{
    let mut r: Vec<u64> = Vec::new();
    let mut k: usize = 0;
    while k < v.len()
        invariant
            k <= v@.len(),
            r@ == v@.take(k as int),
        decreases v@.len() - k,
    {
        r.push(v[k]);
        k = k + 1;
        assert(r@ =~= v@.take(k as int));
    }
    assert(r@ =~= v@);
    r
}

/// Cell coordinates of an edge.
pub open spec fn edge_key(e: Edge) -> (u64, u64) {
    (e.src_id, e.dest_id)
}

/// Ids of the edges of `es` whose cell is `key`.
pub open spec fn ids_at(es: Seq<Edge>, key: (u64, u64)) -> Set<u64> {
    Set::new(|id: u64| exists|t: int| 0 <= t < es.len() && edge_key(#[trigger] es[t]) == key && es[t].id == id)
}

/// Whether some edge of `es` has cell `key`.
pub open spec fn has_cell(es: Seq<Edge>, key: (u64, u64)) -> bool {
    exists|t: int| 0 <= t < es.len() && edge_key(#[trigger] es[t]) == key
}

/// The cells of the edges of `es`.
pub open spec fn cells_of(es: Seq<Edge>) -> Set<(u64, u64)> {
    Set::new(|k: (u64, u64)| has_cell(es, k))
}

/// The cells `v` with the edges `es` added.
pub open spec fn with_edges(v: Map<(u64, u64), Set<u64>>, es: Seq<Edge>) -> Map<(u64, u64), Set<u64>> {
    Map::new(
        |k: (u64, u64)| v.contains_key(k) || has_cell(es, k),
        |k: (u64, u64)|
            (if v.contains_key(k) {
                v[k]
            } else {
                Set::empty()
            }).union(ids_at(es, k)),
    )
}

/// The cells `v` with the edges `es` taken out; cells left empty disappear.
pub open spec fn without_edges(v: Map<(u64, u64), Set<u64>>, es: Seq<Edge>) -> Map<(u64, u64), Set<u64>> {
    Map::new(
        |k: (u64, u64)| v.contains_key(k) && !v[k].subset_of(ids_at(es, k)),
        |k: (u64, u64)| v[k].difference(ids_at(es, k)),
    )
}

/// Edges ordered by cell, equal cells adjacent.
pub open spec fn edges_grouped(es: Seq<Edge>) -> bool {
    forall|a: int, b: int|
        0 <= a < b < es.len() ==> key_lt(edge_key(#[trigger] es[a]), edge_key(#[trigger] es[b]))
            || edge_key(es[a]) == edge_key(es[b])
}

proof fn lemma_ids_step(es: Seq<Edge>, k: int, key: (u64, u64))
    requires
        0 <= k < es.len(),
    ensures
        ids_at(es.take(k + 1), key) == (if edge_key(es[k]) == key {
            ids_at(es.take(k), key).insert(es[k].id)
        } else {
            ids_at(es.take(k), key)
        }),
        has_cell(es.take(k + 1), key) == (has_cell(es.take(k), key) || edge_key(es[k]) == key),
{
    let a = es.take(k);
    let b = es.take(k + 1);
    assert forall|id: u64| ids_at(b, key).contains(id) == (if edge_key(es[k]) == key {
        ids_at(a, key).insert(es[k].id)
    } else {
        ids_at(a, key)
    }).contains(id) by {
        if ids_at(b, key).contains(id) {
            let t = choose|t: int| 0 <= t < b.len() && edge_key(#[trigger] b[t]) == key && b[t].id == id;
            if t < k {
                assert(a[t] == b[t]);
            }
        }
        if ids_at(a, key).contains(id) {
            let t = choose|t: int| 0 <= t < a.len() && edge_key(#[trigger] a[t]) == key && a[t].id == id;
            assert(b[t] == a[t]);
        }
        if edge_key(es[k]) == key && id == es[k].id {
            assert(b[k] == es[k]);
        }
    }
    if edge_key(es[k]) == key {
        assert(ids_at(b, key) =~= ids_at(a, key).insert(es[k].id));
    } else {
        assert(ids_at(b, key) =~= ids_at(a, key));
    }
    if has_cell(b, key) {
        let t = choose|t: int| 0 <= t < b.len() && edge_key(#[trigger] b[t]) == key;
        if t < k {
            assert(a[t] == b[t]);
        }
    }
    if has_cell(a, key) {
        let t = choose|t: int| 0 <= t < a.len() && edge_key(#[trigger] a[t]) == key;
        assert(b[t] == a[t]);
    }
    if edge_key(es[k]) == key {
        assert(b[k] == es[k]);
    }
}

pub proof fn lemma_has_cell_step(es: Seq<Edge>, k: int, key: (u64, u64))
    requires
        0 <= k < es.len(),
    ensures
        has_cell(es.take(k + 1), key) == (has_cell(es.take(k), key) || edge_key(es[k]) == key),
{
    lemma_ids_step(es, k, key);
}

proof fn lemma_ids_range(es: Seq<Edge>, i: int, j: int, key: (u64, u64), c: (u64, u64))
    requires
        0 <= i <= j <= es.len(),
        c != key,
        forall|t: int| i <= t < j ==> edge_key(#[trigger] es[t]) == key,
    ensures
        ids_at(es.take(j), c) == ids_at(es.take(i), c),
    decreases j - i,
{
    if i < j {
        lemma_ids_range(es, i, j - 1, key, c);
        lemma_ids_step(es, j - 1, c);
    }
}

/// The cell coordinates of a triple in the order of a scan: `(src, dest)`,
/// or `(dest, src)` for a scan by column.
pub open spec fn okey(tr: bool, t: (u64, u64, u64)) -> (u64, u64) {
    if tr {
        (t.1, t.0)
    } else {
        (t.0, t.1)
    }
}

/// Scan order on `(src, dest, edge)` triples: by cell, then by edge id.
pub open spec fn tri_lt(tr: bool, a: (u64, u64, u64), b: (u64, u64, u64)) -> bool {
    key_lt(okey(tr, a), okey(tr, b)) || (okey(tr, a) == okey(tr, b) && a.2 < b.2)
}

pub open spec fn tri_sorted(tr: bool, s: Seq<(u64, u64, u64)>) -> bool {
    forall|a: int, b: int| 0 <= a < b < s.len() ==> tri_lt(tr, #[trigger] s[a], #[trigger] s[b])
}

/// The `(src, dest, edge)` triples of the cells `v` whose scanned row
/// (`src`, or `dest` for a scan by column) lies in `min..=max`.
pub open spec fn triples_in(v: Map<(u64, u64), Set<u64>>, tr: bool, min: u64, max: u64) -> Set<(u64, u64, u64)> {
    Set::new(
        |t: (u64, u64, u64)|
            v.contains_key((t.0, t.1)) && v[(t.0, t.1)].contains(t.2) && min <= okey(tr, t).0 <= max,
    )
}

/// Whether one of the first `k` entries of `s` has coordinates `key`.
pub open spec fn seen_upto(s: Seq<Entry>, k: int, key: (u64, u64)) -> bool {
    exists|p: int| 0 <= p < k && ekey(#[trigger] s[p]) == key
}

/// The triples of one cell, one per id.
pub open spec fn cell_items(s: u64, d: u64, ids: Seq<u64>) -> Seq<(u64, u64, u64)> {
    ids.map_values(|x: u64| (s, d, x))
}

proof fn lemma_cell_items(
    tr: bool,
    before: Seq<(u64, u64, u64)>,
    s: u64,
    d: u64,
    ids: Seq<u64>,
)
    requires
        tri_sorted(tr, before),
        ids_sorted(ids),
        forall|t: int| 0 <= t < before.len() ==> key_lt(okey(tr, #[trigger] before[t]), okey(tr, (s, d, 0u64))),
    ensures
        tri_sorted(tr, before + cell_items(s, d, ids)),
        (before + cell_items(s, d, ids)).to_set() == before.to_set() + Set::new(
            |t: (u64, u64, u64)| t.0 == s && t.1 == d && ids.contains(t.2),
        ),
        forall|t: int| 0 <= t < (before + cell_items(s, d, ids)).len() ==> (key_lt(okey(tr, #[trigger] (before + cell_items(s, d, ids))[t]), okey(tr, (s, d, 0u64)))
            || okey(tr, (before + cell_items(s, d, ids))[t]) == okey(tr, (s, d, 0u64))),
{
    let c = cell_items(s, d, ids);
    let all = before + c;
    assert forall|a: int, b: int| 0 <= a < b < all.len() implies tri_lt(tr, #[trigger] all[a], #[trigger] all[b]) by {
        if b < before.len() {
        } else if a < before.len() {
            assert(all[b] == c[b - before.len()]);
            assert(okey(tr, all[b]) == okey(tr, (s, d, 0u64)));
        } else {
            assert(all[a] == c[a - before.len()]);
            assert(all[b] == c[b - before.len()]);
            assert(ids[a - before.len()] < ids[b - before.len()]);
        }
    }
    let rhs = before.to_set() + Set::new(|t: (u64, u64, u64)| t.0 == s && t.1 == d && ids.contains(t.2));
    assert forall|t: (u64, u64, u64)| all.to_set().contains(t) == rhs.contains(t) by {
        if all.contains(t) {
            let q = choose|q: int| 0 <= q < all.len() && all[q] == t;
            if q < before.len() {
                assert(before[q] == t);
            } else {
                assert(c[q - before.len()] == t);
                assert(ids[q - before.len()] == t.2);
            }
        }
        if before.contains(t) {
            let q = choose|q: int| 0 <= q < before.len() && before[q] == t;
            assert(all[q] == t);
        }
        if t.0 == s && t.1 == d && ids.contains(t.2) {
            let q = choose|q: int| 0 <= q < ids.len() && ids[q] == t.2;
            assert(all[before.len() + q] == c[q]);
        }
    }
    assert(all.to_set() =~= rhs);
    assert forall|t: int| 0 <= t < all.len() implies (key_lt(okey(tr, #[trigger] all[t]), okey(tr, (s, d, 0u64)))
        || okey(tr, all[t]) == okey(tr, (s, d, 0u64))) by {
        if t >= before.len() {
            assert(all[t] == c[t - before.len()]);
        }
    }
}

/// Ids of the edges `es[i..j]`.
pub open spec fn run_ids(es: Seq<Edge>, i: int, j: int) -> Set<u64> {
    Set::new(|id: u64| exists|t: int| i <= t < j && (#[trigger] es[t]).id == id)
}

proof fn lemma_ids_run(es: Seq<Edge>, i: int, j: int, key: (u64, u64))
    requires
        0 <= i <= j <= es.len(),
        forall|t: int| i <= t < j ==> edge_key(#[trigger] es[t]) == key,
    ensures
        ids_at(es.take(j), key) == ids_at(es.take(i), key).union(run_ids(es, i, j)),
    decreases j - i,
{
    if i == j {
        assert(run_ids(es, i, j) =~= Set::<u64>::empty());
        assert(ids_at(es.take(i), key).union(Set::<u64>::empty()) =~= ids_at(es.take(i), key));
    } else {
        lemma_ids_run(es, i, j - 1, key);
        lemma_ids_step(es, j - 1, key);
        assert(run_ids(es, i, j) =~= run_ids(es, i, j - 1).insert(es[j - 1].id)) by {
            assert forall|x: u64| run_ids(es, i, j).contains(x) implies run_ids(es, i, j - 1).insert(es[j - 1].id).contains(x) by {
                let t = choose|t: int| i <= t < j && (#[trigger] es[t]).id == x;
            }
            assert forall|x: u64| run_ids(es, i, j - 1).insert(es[j - 1].id).contains(x) implies run_ids(es, i, j).contains(x) by {
                if x != es[j - 1].id {
                    let t = choose|t: int| i <= t < j - 1 && (#[trigger] es[t]).id == x;
                }
            }
        }
        assert(ids_at(es.take(j), key) =~= ids_at(es.take(i), key).union(run_ids(es, i, j)));
    }
}

proof fn lemma_cells_range(es: Seq<Edge>, i: int, j: int, key: (u64, u64), c: (u64, u64))
    requires
        0 <= i <= j <= es.len(),
        c != key,
        forall|t: int| i <= t < j ==> edge_key(#[trigger] es[t]) == key,
    ensures
        has_cell(es.take(j), c) == has_cell(es.take(i), c),
    decreases j - i,
{
    if i < j {
        lemma_cells_range(es, i, j - 1, key, c);
        lemma_ids_step(es, j - 1, c);
    }
}

/// Adds the ids of `edges[i..j]` to an increasing vector, skipping those it holds.
fn add_ids(v: &mut Vec<u64>, edges: &[Edge], i: usize, j: usize)
    requires
        ids_sorted(old(v)@),
        i <= j <= edges@.len(),
    ensures
        ids_sorted(final(v)@),
        final(v)@.to_set() == old(v)@.to_set().union(run_ids(edges@, i as int, j as int)),
        forall|t: int| 0 <= t < final(v)@.len() ==> old(v)@.contains(#[trigger] final(v)@[t])
            || run_ids(edges@, i as int, j as int).contains(final(v)@[t]),
{
    let mut k = i;
    proof {
        assert(run_ids(edges@, i as int, i as int) =~= Set::<u64>::empty());
        assert(v@.to_set() =~= old(v)@.to_set().union(Set::<u64>::empty()));
    }
    while k < j
        invariant
            i <= k <= j,
            j <= edges@.len(),
            ids_sorted(v@),
            v@.to_set() == old(v)@.to_set().union(run_ids(edges@, i as int, k as int)),
            forall|t: int| 0 <= t < v@.len() ==> old(v)@.contains(#[trigger] v@[t])
                || run_ids(edges@, i as int, k as int).contains(v@[t]),
        decreases j - k,
    {
        let id = edges[k].id;
        let ghost before = v@;
        proof {
            assert(run_ids(edges@, i as int, k + 1) =~= run_ids(edges@, i as int, k as int).insert(id)) by {
                assert forall|x: u64| run_ids(edges@, i as int, k + 1).contains(x) implies run_ids(edges@, i as int, k as int).insert(id).contains(x) by {
                    let t = choose|t: int| i <= t < k + 1 && (#[trigger] edges@[t]).id == x;
                }
                assert forall|x: u64| run_ids(edges@, i as int, k as int).insert(id).contains(x) implies run_ids(edges@, i as int, k + 1).contains(x) by {
                    if x == id {
                        assert(edges@[k as int].id == x);
                    } else {
                        let t = choose|t: int| i <= t < k && (#[trigger] edges@[t]).id == x;
                    }
                }
            }
        }
        if !contains_id(v, id) {
            insert_sorted(v, id);
            proof {
                assert(v@.to_set() =~= old(v)@.to_set().union(run_ids(edges@, i as int, k + 1)));
                assert forall|t: int| 0 <= t < v@.len() implies old(v)@.contains(#[trigger] v@[t])
                    || run_ids(edges@, i as int, k + 1).contains(v@[t]) by {
                    if v@[t] != id {
                        assert(before.contains(v@[t]));
                        let q = choose|q: int| 0 <= q < before.len() && before[q] == v@[t];
                        assert(old(v)@.contains(before[q]) || run_ids(edges@, i as int, k as int).contains(before[q]));
                    }
                }
            }
        } else {
            proof {
                assert(v@.to_set().contains(id));
                assert(v@.to_set() =~= old(v)@.to_set().union(run_ids(edges@, i as int, k + 1)));
            }
        }
        k = k + 1;
    }
}

/// Every edge id held by some cell of `v`.
pub open spec fn rel_ids(v: Map<(u64, u64), Set<u64>>) -> Set<u64> {
    Set::new(|id: u64| exists|key: (u64, u64)| #[trigger] v.contains_key(key) && v[key].contains(id))
}

/// Ids below the high bit form a finite set of at most `MSB` elements.
pub proof fn lemma_low_ids_finite(s: Set<u64>)
    requires
        forall|x: u64| #[trigger] s.contains(x) ==> x < MSB,
    ensures
        s.finite(),
        s.len() <= MSB,
{
    let x = vstd::set_lib::set_int_range(0, MSB as int);
    let f = |i: int| i as u64;
    vstd::set_lib::lemma_int_range(0, MSB as int);
    vstd::set_lib::lemma_map_size_bound(x, x.map(f), f);
    assert forall|y: u64| s.contains(y) implies x.map(f).contains(y) by {
        assert(x.contains(y as int));
        assert(f(y as int) == y);
    }
    vstd::set_lib::lemma_len_subset(s, x.map(f));
}

/// A relation's multigraph matrix: each cell holds one edge id, or (high bit
/// set) the handle of a bundle of edge ids.
pub struct Tensor {
    m: DeltaMatrix,
    bundles: Vec<Vec<u64>>,
    free: Vec<u64>,
}

impl Tensor {
    /// The edge ids that a cell value stands for.
    pub closed spec fn decode(&self, v: u64) -> Set<u64> {
        if v < MSB {
            set![v]
        } else {
            self.bundles@[v - MSB]@.to_set()
        }
    }

    /// The cell value stored at a coordinate.
    pub closed spec fn cell_value(&self, key: (u64, u64)) -> u64 {
        self.m@[key]
    }

    /// The bundle behind a tagged cell value.
    pub closed spec fn bundle_of(&self, v: u64) -> Seq<u64> {
        self.bundles@[v - MSB]@
    }

    /// Bundle slots given back, to be handed out again before new ones.
    pub closed spec fn released(&self) -> Set<u64> {
        self.free@.to_set()
    }

    /// Number of bundle slots allocated so far.
    pub closed spec fn slots(&self) -> nat {
        self.bundles@.len()
    }

    pub closed spec fn matrix_spec(&self) -> DeltaMatrix {
        self.m
    }

    pub closed spec fn wf(&self) -> bool {
        &&& self.m.wf()
        &&& self.m.elem_type() == ElementType::U64
        &&& self.m.mirror() is Some
        &&& self.bundles@.len() < MSB
        &&& forall|k: (u64, u64)|
            #[trigger] self.m@.contains_key(k) && self.m@[k] >= MSB ==> (self.m@[k] - MSB)
                < self.bundles@.len() && bundle_ok(self.bundles@[self.m@[k] - MSB]@)
        &&& forall|k1: (u64, u64), k2: (u64, u64)|
            #[trigger] self.m@.contains_key(k1) && #[trigger] self.m@.contains_key(k2) && self.m@[k1]
                >= MSB && self.m@[k1] == self.m@[k2] ==> k1 == k2
        &&& self.free@.no_duplicates()
        &&& forall|i: int| 0 <= i < self.free@.len() ==> (#[trigger] self.free@[i]) < self.bundles@.len()
        &&& forall|k: (u64, u64)|
            #[trigger] self.m@.contains_key(k) && self.m@[k] >= MSB ==> !self.free@.contains((self.m@[k] - MSB) as u64)
    }

    pub closed spec fn rows(&self) -> u64 {
        self.m.rows()
    }

    pub closed spec fn cols(&self) -> u64 {
        self.m.cols()
    }
}

impl View for Tensor {
    type V = Map<(u64, u64), Set<u64>>;

    /// Each occupied cell with the set of edge ids it holds.
    closed spec fn view(&self) -> Map<(u64, u64), Set<u64>> {
        Map::new(|k: (u64, u64)| self.m@.contains_key(k), |k: (u64, u64)| self.decode(self.m@[k]))
    }
}

impl Tensor {
    /// No cell is empty, and a tagged cell holds a bundle of at least two ids.
    pub proof fn lemma_shape(&self)
        requires
            self.wf(),
        ensures
            forall|k: (u64, u64)| #[trigger]
                self@.contains_key(k) ==> self@[k].finite() && self@[k].len() >= 1 && (self.cell_value(k)
                    >= MSB ==> self.bundle_of(self.cell_value(k)).len() >= 2 && self@[k].len()
                    == self.bundle_of(self.cell_value(k)).len()) && (self.cell_value(k) < MSB
                    ==> self@[k] == set![self.cell_value(k)]),
    {
        assert forall|k: (u64, u64)| #[trigger] self@.contains_key(k) implies self@[k].finite()
            && self@[k].len() >= 1 && (self.cell_value(k) >= MSB ==> self.bundle_of(
            self.cell_value(k),
        ).len() >= 2 && self@[k].len() == self.bundle_of(self.cell_value(k)).len()) && (
        self.cell_value(k) < MSB ==> self@[k] == set![self.cell_value(k)]) by {
            let v = self.m@[k];
            if v >= MSB {
                lemma_sorted_len(self.bundles@[v - MSB]@);
            } else {
                assert(set![v].len() == 1);
            }
        }
    }

    /// Grows the tensor to `nrows` x `ncols`; no cell changes.
    pub fn resize(&mut self, nrows: u64, ncols: u64)
        requires
            old(self).wf(),
            nrows >= old(self).rows(),
            ncols >= old(self).cols(),
        ensures
            final(self).wf(),
            final(self)@ == old(self)@,
            final(self).rows() == nrows,
            final(self).cols() == ncols,
            final(self).slots() == old(self).slots(),
    {
        proof {
            self.m.lemma_wf();
        }
        self.m.resize(nrows, ncols);
        proof {
            assert(self.m@ =~= old(self).m@);
            assert(self@ =~= old(self)@);
        }
    }

    /// Flushes the underlying matrix (see `DeltaMatrix::wait`); no cell changes.
    pub fn wait(&mut self, force_sync: bool)
        requires
            old(self).wf(),
        ensures
            final(self).wf(),
            final(self)@ == old(self)@,
            final(self).rows() == old(self).rows(),
            final(self).cols() == old(self).cols(),
            final(self).slots() == old(self).slots(),
            force_sync ==> final(self).matrix_spec().dp_part()@ == Map::<(u64, u64), u64>::empty()
                && final(self).matrix_spec().dm_part()@ == Map::<(u64, u64), u64>::empty(),
    {
        self.m.wait(force_sync);
        assert(self@ =~= old(self)@);
    }

    /// Synchronizes the underlying matrix at its own dimensions: flushes
    /// without force when dirty; no cell changes.
    pub fn synchronize(&mut self)
        requires
            old(self).wf(),
        ensures
            final(self).wf(),
            final(self)@ == old(self)@,
            final(self).rows() == old(self).rows(),
            final(self).cols() == old(self).cols(),
            final(self).slots() == old(self).slots(),
    {
        let nr = self.m.nrows();
        let nc = self.m.ncols();
        self.m.synchronize(nr, nc);
        assert(self@ =~= old(self)@);
    }

    /// Whether the underlying matrix has deferred work.
    pub fn pending(&self) -> (r: bool)
        ensures
            !r,
    {
        self.m.pending()
    }

    /// Number of bundle slots allocated so far.
    pub fn slot_count(&self) -> (r: usize)
        ensures
            r == self.slots(),
    {
        self.bundles.len()
    }

    /// The ids held by the tensor are below the high bit, so finitely many.
    pub proof fn lemma_ids_bounded(&self)
        requires
            self.wf(),
        ensures
            forall|x: u64| #[trigger] rel_ids(self@).contains(x) ==> x < MSB,
            rel_ids(self@).finite(),
            rel_ids(self@).len() <= MSB,
    {
        assert forall|x: u64| #[trigger] rel_ids(self@).contains(x) implies x < MSB by {
            let key = choose|key: (u64, u64)| #[trigger] self@.contains_key(key) && self@[key].contains(x);
            let v = self.m@[key];
            if v >= MSB {
                let b = self.bundles@[v - MSB]@;
                assert(b.to_set().contains(x));
                let q = choose|q: int| 0 <= q < b.len() && b[q] == x;
            }
        }
        lemma_low_ids_finite(rel_ids(self@));
    }

    /// No cell holds the handle of a released bundle.
    pub proof fn lemma_released(&self)
        requires
            self.wf(),
        ensures
            forall|k: (u64, u64)| #[trigger] self@.contains_key(k) && self.cell_value(k) >= MSB
                ==> !self.released().contains((self.cell_value(k) - MSB) as u64),
    {
        assert forall|k: (u64, u64)| #[trigger] self@.contains_key(k) && self.cell_value(k) >= MSB
            implies !self.released().contains((self.cell_value(k) - MSB) as u64) by {
            assert(self.m@.contains_key(k));
        }
    }

    /// Hands out a bundle slot holding `v`: a released one first, else a new one.
    fn alloc_bundle(&mut self, v: Vec<u64>) -> (h: u64)
        requires
            old(self).wf(),
            old(self).bundles@.len() + 1 < MSB,
        ensures
            h < final(self).bundles@.len(),
            final(self).bundles@[h as int] == v,
            final(self).bundles@.len() >= old(self).bundles@.len(),
            final(self).bundles@.len() <= old(self).bundles@.len() + 1,
            forall|x: int| 0 <= x < old(self).bundles@.len() && x != h ==> #[trigger] final(self).bundles@[x] == old(self).bundles@[x],
            final(self).m == old(self).m,
            !final(self).free@.contains(h),
            forall|x: u64| #[trigger] final(self).free@.contains(x) ==> old(self).free@.contains(x),
            final(self).free@.no_duplicates(),
            forall|i: int| 0 <= i < final(self).free@.len() ==> (#[trigger] final(self).free@[i]) < final(self).bundles@.len(),
            forall|k: (u64, u64)| #[trigger] old(self).m@.contains_key(k) && old(self).m@[k] >= MSB ==> old(self).m@[k] != h + MSB,
    {
        if self.free.len() > 0 {
            let h = self.free.pop().unwrap();
            proof {
                let f0 = old(self).free@;
                assert(f0[f0.len() - 1] == h);
                assert(self.free@ == f0.drop_last());
                assert forall|x: u64| #[trigger] self.free@.contains(x) implies old(self).free@.contains(x) by {
                    let i = choose|i: int| 0 <= i < self.free@.len() && self.free@[i] == x;
                    assert(f0[i] == x);
                }
                assert(!self.free@.contains(h)) by {
                    if self.free@.contains(h) {
                        let i = choose|i: int| 0 <= i < self.free@.len() && self.free@[i] == h;
                        assert(f0[i] == f0[f0.len() - 1]);
                    }
                }
                assert(self.free@.no_duplicates()) by {
                    assert forall|a: int, b: int| 0 <= a < self.free@.len() && 0 <= b < self.free@.len() && a != b implies self.free@[a] != self.free@[b] by {
                        assert(f0[a] == self.free@[a] && f0[b] == self.free@[b]);
                    }
                }
                assert(f0.contains(h));
                assert forall|k: (u64, u64)| #[trigger] old(self).m@.contains_key(k) && old(self).m@[k] >= MSB implies old(self).m@[k] != h + MSB by {
                    assert(!f0.contains((old(self).m@[k] - MSB) as u64));
                }
                assert(h < self.bundles@.len()) by {
                    assert(f0[f0.len() - 1] < old(self).bundles@.len());
                }
            }
            let len = self.bundles.len();
            assert(h < len);
            self.bundles.set(h as usize, v);
            h
        } else {
            let h = self.bundles.len() as u64;
            self.bundles.push(v);
            proof {
                assert forall|k: (u64, u64)| #[trigger] old(self).m@.contains_key(k) && old(self).m@[k] >= MSB implies old(self).m@[k] != h + MSB by {
                    assert(old(self).m@[k] - MSB < old(self).bundles@.len());
                }
                assert(self.free@.len() == 0);
            }
            h
        }
    }

    /// Gives back bundle slot `h`, which no cell holds.
    fn release(&mut self, h: u64)
        requires
            old(self).wf(),
            h < old(self).bundles@.len(),
            !old(self).free@.contains(h),
            forall|k: (u64, u64)| #[trigger] old(self).m@.contains_key(k) && old(self).m@[k] >= MSB ==> old(self).m@[k] != h + MSB,
        ensures
            final(self).wf(),
            final(self)@ == old(self)@,
            final(self).m == old(self).m,
            final(self).bundles@.len() == old(self).bundles@.len(),
            final(self).free@ == old(self).free@.push(h),
            final(self).released() == old(self).released().insert(h),
    {
        let len = self.bundles.len();
        assert(h < len);
        self.bundles.set(h as usize, Vec::new());
        self.free.push(h);
        proof {
            let f0 = old(self).free@;
            assert forall|a: int, b: int| 0 <= a < self.free@.len() && 0 <= b < self.free@.len() && a != b implies self.free@[a] != self.free@[b] by {
                if a < f0.len() && b < f0.len() {
                    assert(f0[a] == self.free@[a] && f0[b] == self.free@[b]);
                } else if a < f0.len() {
                    assert(f0[a] == self.free@[a]);
                    assert(f0.contains(f0[a]));
                } else if b < f0.len() {
                    assert(f0[b] == self.free@[b]);
                    assert(f0.contains(f0[b]));
                }
            }
            assert forall|k: (u64, u64)| #[trigger] self.m@.contains_key(k) && self.m@[k] >= MSB implies !self.free@.contains((self.m@[k] - MSB) as u64) by {
                assert(!f0.contains((self.m@[k] - MSB) as u64));
                if self.free@.contains((self.m@[k] - MSB) as u64) {
                    let i = choose|i: int| 0 <= i < self.free@.len() && self.free@[i] == (self.m@[k] - MSB) as u64;
                    if i < f0.len() {
                        assert(f0[i] == self.free@[i]);
                    }
                }
            }
            assert forall|k: (u64, u64)| #[trigger] self.m@.contains_key(k) && self.m@[k] >= MSB implies (self.m@[k] - MSB)
                < self.bundles@.len() && bundle_ok(self.bundles@[self.m@[k] - MSB]@) by {
                assert(self.m@[k] - MSB != h);
            }
            assert forall|k: (u64, u64)| #[trigger] self@.contains_key(k) implies self@[k] == old(self)@[k] by {
                if self.m@[k] >= MSB {
                    assert(self.m@[k] - MSB != h);
                }
            }
            assert(self@ =~= old(self)@);
            assert(self.released() =~= old(self).released().insert(h)) by {
                assert forall|x: u64| self.free@.contains(x) == (f0.contains(x) || x == h) by {
                    if self.free@.contains(x) {
                        let i = choose|i: int| 0 <= i < self.free@.len() && self.free@[i] == x;
                        if i < f0.len() {
                            assert(f0[i] == x);
                        }
                    }
                    if f0.contains(x) {
                        let i = choose|i: int| 0 <= i < f0.len() && f0[i] == x;
                        assert(self.free@[i] == x);
                    }
                    if x == h {
                        assert(self.free@[f0.len() as int] == h);
                    }
                }
            }
        }
    }

    /// What `wf` says of the underlying matrix.
    pub proof fn lemma_matrix(&self)
        requires
            self.wf(),
        ensures
            self.matrix_spec().wf(),
            self.matrix_spec().elem_type() == ElementType::U64,
            self.matrix_spec().mirror() is Some,
            self.matrix_spec().rows() == self.rows(),
            self.matrix_spec().cols() == self.cols(),
            self.matrix_spec()@.dom() == self@.dom(),
            forall|k: (u64, u64)| #[trigger] self@.contains_key(k) ==> self.matrix_spec()@[k] == self.cell_value(k),
            forall|k1: (u64, u64), k2: (u64, u64)|
                #[trigger] self@.contains_key(k1) && #[trigger] self@.contains_key(k2) && self.cell_value(k1) >= MSB
                    && self.cell_value(k1) == self.cell_value(k2) ==> k1 == k2,
    {
        assert(self.m@.dom() =~= self@.dom());
    }

    /// An empty `nrows` x `ncols` tensor.
    pub fn new(nrows: u64, ncols: u64) -> (r: Self)
        ensures
            r.wf(),
            r@ == Map::<(u64, u64), Set<u64>>::empty(),
            r.rows() == nrows,
            r.cols() == ncols,
            r.slots() == 0,
    {
        let r = Tensor { m: DeltaMatrix::new(ElementType::U64, nrows, ncols, true), bundles: Vec::new(), free: Vec::new() };
        assert(r@ =~= Map::<(u64, u64), Set<u64>>::empty());
        r
    }

    /// The underlying delta matrix of cell values.
    pub fn matrix(&self) -> (r: &DeltaMatrix)
        ensures
            *r == self.matrix_spec(),
    {
        &self.m
    }

    /// Adds edge `id` to the cell `(src, dest)`: an empty cell takes the id
    /// itself, a single id becomes a bundle of two, a bundle grows.
    pub fn set_element(&mut self, src: u64, dest: u64, id: u64)
        requires
            old(self).wf(),
            src < old(self).rows(),
            dest < old(self).cols(),
            id < MSB,
            old(self).slots() + 1 < MSB,
        ensures
            final(self).wf(),
            final(self)@ == old(self)@.insert(
                (src, dest),
                if old(self)@.contains_key((src, dest)) {
                    old(self)@[(src, dest)].insert(id)
                } else {
                    set![id]
                },
            ),
            final(self).rows() == old(self).rows(),
            final(self).cols() == old(self).cols(),
            final(self).slots() <= old(self).slots() + 1,
    {
        let key = (src, dest);
        proof {
            self.m.lemma_wf();
        }
        match self.m.extract_element_u64(src, dest) {
            Some(current_edge) => {
                if single_edge(current_edge) && current_edge == id {
                    proof {
                        assert(old(self)@[key] == set![current_edge]);
                        assert(old(self)@[key].insert(id) =~= old(self)@[key]);
                        assert(old(self)@.insert(key, old(self)@[key].insert(id)) =~= old(self)@);
                    }
                } else if single_edge(current_edge) {
                    let mut v: Vec<u64> = Vec::new();
                    v.push(current_edge);
                    proof {
                        assert(current_edge != id) by {
                            assert(old(self)@[key] == set![current_edge]);
                        }
                    }
                    insert_sorted(&mut v, id);
                    let ghost vs = v@;
                    let h = self.alloc_bundle(v);
                    let tagged = set_msb(h);
                    self.m.set_element_u64(tagged, src, dest);
                    proof {
                        assert(v@.to_set() =~= set![current_edge].insert(id)) by {
                            assert(seq![current_edge].to_set() =~= set![current_edge]) by {
                                assert(seq![current_edge][0] == current_edge);
                            }
                        }
                        assert forall|t: int| 0 <= t < v@.len() implies #[trigger] v@[t] < MSB by {
                            assert(v@[t] == id || seq![current_edge].contains(v@[t]));
                        }
                        assert(self.bundles@[h as int]@ == vs);
                        self.lemma_after_set(*old(self), key, tagged);
                    }
                } else {
                    proof {
                        assert(self.m@.contains_key(key) && self.m@[key] == current_edge);
                        assert(current_edge - MSB < self.bundles@.len());
                        assert(bundle_ok(self.bundles@[current_edge - MSB]@));
                    }
                    let hv = clear_msb(current_edge);
                    assert(hv < self.bundles.len());
                    let h = hv as usize;
                    let mut v = copy_ids(&self.bundles[h]);
                    proof {
                        assert(old(self)@[key] == v@.to_set());
                    }
                    if contains_id(&v, id) {
                        proof {
                            assert(old(self)@[key].insert(id) =~= old(self)@[key]);
                            assert(old(self)@.insert(key, old(self)@[key].insert(id)) =~= old(self)@);
                        }
                        return ;
                    }
                    insert_sorted(&mut v, id);
                    self.bundles.set(h, v);
                    proof {
                        assert forall|t: int| 0 <= t < v@.len() implies #[trigger] v@[t] < MSB by {
                            assert(v@[t] == id || old(self).bundles@[h as int]@.contains(v@[t]));
                        }
                        self.lemma_after_bundle_update(*old(self), key, h as int);
                    }
                }
            },
            None => {
                self.m.set_element_u64(id, src, dest);
                proof {
                    self.lemma_after_set(*old(self), key, id);
                }
            },
        }
    }

    /// After a cell of `prev` is rewritten to `v` (with any bundle `v`
    /// names freshly pushed), the tensor is well-formed and the cell decodes anew.
    proof fn lemma_after_set(&self, prev: Tensor, key: (u64, u64), v: u64)
        requires
            prev.wf(),
            self.m.wf(),
            self.m.elem_type() == ElementType::U64,
            self.m.mirror() is Some,
            self.m@ == prev.m@.insert(key, v),
            self.bundles@.len() < MSB,
            self.bundles@.len() >= prev.bundles@.len(),
            forall|h: int| 0 <= h < prev.bundles@.len() && !(v >= MSB && h == v - MSB) ==> #[trigger] self.bundles@[h] == prev.bundles@[h],
            v >= MSB ==> v - MSB < self.bundles@.len() && bundle_ok(self.bundles@[v - MSB]@)
                && !self.free@.contains((v - MSB) as u64),
            v >= MSB ==> forall|k: (u64, u64)| #[trigger] prev.m@.contains_key(k) && prev.m@[k] >= MSB ==> prev.m@[k] != v,
            forall|x: u64| #[trigger] self.free@.contains(x) ==> prev.free@.contains(x),
            self.free@.no_duplicates(),
            forall|i: int| 0 <= i < self.free@.len() ==> (#[trigger] self.free@[i]) < self.bundles@.len(),
        ensures
            self.wf(),
            self@ == prev@.insert(key, self.decode(v)),
    {
        assert forall|k1: (u64, u64), k2: (u64, u64)|
            #[trigger] self.m@.contains_key(k1) && #[trigger] self.m@.contains_key(k2) && self.m@[k1]
                >= MSB && self.m@[k1] == self.m@[k2] implies k1 == k2 by {
            if k1 != key && k2 != key {
                assert(prev.m@.contains_key(k1) && prev.m@.contains_key(k2));
            } else if k1 == key && k2 != key {
                assert(prev.m@.contains_key(k2));
            } else if k2 == key && k1 != key {
                assert(prev.m@.contains_key(k1));
            }
        }
        assert forall|k: (u64, u64)| #[trigger]
            self.m@.contains_key(k) && self.m@[k] >= MSB implies (self.m@[k] - MSB) < self.bundles@.len()
                && bundle_ok(self.bundles@[self.m@[k] - MSB]@) by {
            if k != key {
                assert(prev.m@.contains_key(k));
                assert(prev.m@[k] != v);
            }
        }
        assert forall|k: (u64, u64)| #[trigger]
            self.m@.contains_key(k) && self.m@[k] >= MSB implies !self.free@.contains((self.m@[k] - MSB) as u64) by {
            if k != key {
                assert(prev.m@.contains_key(k));
                assert(!prev.free@.contains((prev.m@[k] - MSB) as u64));
            }
        }
        assert forall|k: (u64, u64)| #[trigger] self@.contains_key(k) == prev@.insert(key, self.decode(v)).contains_key(k)
            && (self@.contains_key(k) ==> self@[k] == prev@.insert(key, self.decode(v))[k]) by {
            if k != key && prev.m@.contains_key(k) {
                let w = prev.m@[k];
                if w >= MSB {
                    assert(w != v);
                    assert(self.bundles@[w - MSB] == prev.bundles@[w - MSB]);
                }
            }
        }
        assert(self@ =~= prev@.insert(key, self.decode(v)));
    }

    /// After the bundle of `key`'s tagged cell is replaced by a good bundle,
    /// the tensor is well-formed and only that cell changed.
    proof fn lemma_after_bundle_update(&self, prev: Tensor, key: (u64, u64), h: int)
        requires
            prev.wf(),
            self.m == prev.m,
            prev.m@.contains_key(key),
            prev.m@[key] >= MSB,
            h == prev.m@[key] - MSB,
            self.bundles@ == prev.bundles@.update(h, self.bundles@[h]),
            bundle_ok(self.bundles@[h]@),
            self.free == prev.free,
        ensures
            self.wf(),
            self@ == prev@.insert(key, self.bundles@[h]@.to_set()),
    {
        assert forall|k: (u64, u64)| #[trigger] self@.contains_key(k) == prev@.insert(key, self.bundles@[h]@.to_set()).contains_key(k)
            && (self@.contains_key(k) ==> self@[k] == prev@.insert(key, self.bundles@[h]@.to_set())[k]) by {
            if k != key && prev.m@.contains_key(k) {
                let w = prev.m@[k];
                if w >= MSB {
                    assert(w - MSB != h);
                }
            }
        }
        assert(self@ =~= prev@.insert(key, self.bundles@[h]@.to_set()));
    }
    /// Adds every edge of `edges` to its cell. Consecutive edges of one cell
    /// form a run, and each run is one update of its cell: an empty cell
    /// takes a lone id itself or a new bundle of the run's ids, a single id
    /// joins the run in a new bundle, a bundle takes the run's ids.
    pub fn set_elements(&mut self, edges: &[Edge])
        requires
            old(self).wf(),
            old(self).slots() + edges@.len() < MSB,
            forall|t: int|
                0 <= t < edges@.len() ==> (#[trigger] edges@[t]).src_id < old(self).rows()
                    && edges@[t].dest_id < old(self).cols() && edges@[t].id < MSB,
        ensures
            final(self).wf(),
            final(self)@ == with_edges(old(self)@, edges@),
            final(self).rows() == old(self).rows(),
            final(self).cols() == old(self).cols(),
            final(self).slots() <= old(self).slots() + edges@.len(),
    {
        let ghost es = edges@;
        let n = edges.len();
        let mut i: usize = 0;
        proof {
            assert forall|c: (u64, u64)| ids_at(es.take(0), c) == Set::<u64>::empty() && !has_cell(es.take(0), c) by {
                assert(ids_at(es.take(0), c) =~= Set::<u64>::empty());
            }
            assert forall|c: (u64, u64)| #[trigger] old(self)@.contains_key(c) implies old(self)@[c] == with_edges(old(self)@, es.take(0))[c] by {
                assert(old(self)@[c].union(Set::<u64>::empty()) =~= old(self)@[c]);
            }
            assert(old(self)@ =~= with_edges(old(self)@, es.take(0)));
        }
        while i < n
            invariant
                self.wf(),
                es == edges@,
                n == es.len(),
                i <= n,
                self@ == with_edges(old(self)@, es.take(i as int)),
                self.rows() == old(self).rows(),
                self.cols() == old(self).cols(),
                self.slots() <= old(self).slots() + i,
                old(self).slots() + n < MSB,
                forall|t: int|
                    0 <= t < es.len() ==> (#[trigger] es[t]).src_id < old(self).rows() && es[t].dest_id
                        < old(self).cols() && es[t].id < MSB,
            decreases n - i,
        {
            let e = edges[i];
            let src = e.src_id;
            let dest = e.dest_id;
            let key = (src, dest);
            let mut j: usize = i + 1;
            let mut more = j < n;
            while more
                invariant
                    i < j <= n,
                    n == es.len(),
                    es == edges@,
                    e == es[i as int],
                    key == edge_key(e),
                    src == e.src_id,
                    dest == e.dest_id,
                    more ==> j < n,
                    forall|t: int| i <= t < j ==> edge_key(#[trigger] es[t]) == key,
                decreases (n - j) as int + (if more { 1int } else { 0int }),
            {
                let f = edges[j];
                if f.src_id == src && f.dest_id == dest {
                    j = j + 1;
                    more = j < n;
                } else {
                    more = false;
                }
            }
            let ghost prev = self@;
            self.set_run(edges, i, j);
            proof {
                lemma_ids_run(es, i as int, j as int, key);
                let nv = with_edges(old(self)@, es.take(j as int));
                assert forall|c: (u64, u64)| #[trigger] self@.contains_key(c) == nv.contains_key(c)
                    && (self@.contains_key(c) ==> self@[c] == nv[c]) by {
                    if c != key {
                        lemma_ids_range(es, i as int, j as int, key, c);
                        lemma_cells_range(es, i as int, j as int, key, c);
                    } else {
                        assert(has_cell(es.take(j as int), c)) by {
                            assert(es.take(j as int)[i as int] == es[i as int]);
                        }
                        let base = if old(self)@.contains_key(c) { old(self)@[c] } else { Set::<u64>::empty() };
                        let base2 = if prev.contains_key(c) { prev[c] } else { Set::<u64>::empty() };
                        assert(base2 == base.union(ids_at(es.take(i as int), c))) by {
                            if !prev.contains_key(c) {
                                assert(base.union(ids_at(es.take(i as int), c)) =~= Set::<u64>::empty()) by {
                                    assert(!old(self)@.contains_key(c));
                                    assert(!has_cell(es.take(i as int), c));
                                    assert forall|id: u64| !ids_at(es.take(i as int), c).contains(id) by {
                                        if ids_at(es.take(i as int), c).contains(id) {
                                            let t = choose|t: int| 0 <= t < es.take(i as int).len() && edge_key(#[trigger] es.take(i as int)[t]) == c && es.take(i as int)[t].id == id;
                                            assert(has_cell(es.take(i as int), c));
                                        }
                                    }
                                }
                            }
                        }
                        assert(self@[c] =~= nv[c]);
                    }
                }
                assert(self@ =~= nv);
            }
            i = j;
        }
        proof {
            assert(es.take(es.len() as int) == es);
        }
    }

    /// Adds the ids of the run `edges[i..j]`, all of one cell, to that cell.
    fn set_run(&mut self, edges: &[Edge], i: usize, j: usize)
        requires
            old(self).wf(),
            i < j <= edges@.len(),
            old(self).slots() + 1 < MSB,
            forall|t: int| i <= t < j ==> edge_key(#[trigger] edges@[t]) == edge_key(edges@[i as int]),
            forall|t: int| i <= t < j ==> (#[trigger] edges@[t]).id < MSB,
            edges@[i as int].src_id < old(self).rows(),
            edges@[i as int].dest_id < old(self).cols(),
        ensures
            final(self).wf(),
            final(self)@ == old(self)@.insert(
                edge_key(edges@[i as int]),
                (if old(self)@.contains_key(edge_key(edges@[i as int])) {
                    old(self)@[edge_key(edges@[i as int])]
                } else {
                    Set::empty()
                }).union(run_ids(edges@, i as int, j as int)),
            ),
            final(self).rows() == old(self).rows(),
            final(self).cols() == old(self).cols(),
            final(self).slots() <= old(self).slots() + 1,
    {
        let src = edges[i].src_id;
        let dest = edges[i].dest_id;
        let key = (src, dest);
        let ghost run = run_ids(edges@, i as int, j as int);
        proof {
            self.m.lemma_wf();
        }
        match self.m.extract_element_u64(src, dest) {
            None => {
                if j - i == 1 {
                    let id = edges[i].id;
                    self.m.set_element_u64(id, src, dest);
                    proof {
                        assert(run =~= set![id]) by {
                            assert forall|x: u64| run.contains(x) implies x == id by {
                                let t = choose|t: int| i <= t < j && (#[trigger] edges@[t]).id == x;
                            }
                            assert(run.contains(id)) by {
                                assert(edges@[i as int].id == id);
                            }
                        }
                        assert(Set::<u64>::empty().union(run) =~= set![id]);
                        self.lemma_after_set(*old(self), key, id);
                    }
                } else {
                    let mut v: Vec<u64> = Vec::new();
                    proof {
                        assert(v@.to_set() =~= Set::<u64>::empty());
                    }
                    add_ids(&mut v, edges, i, j);
                    proof {
                        lemma_sorted_len(v@);
                        assert(Set::<u64>::empty().union(run) =~= run);
                        self.lemma_run_cell(edges, i, j, v@, seq![]);
                    }
                    self.store_new_cell(key, v);
                }
            },
            Some(current_edge) => {
                if single_edge(current_edge) {
                    let mut v: Vec<u64> = Vec::new();
                    v.push(current_edge);
                    proof {
                        assert(v@.to_set() =~= set![current_edge]) by {
                            assert(v@[0] == current_edge);
                        }
                        assert(old(self)@[key] == set![current_edge]);
                    }
                    let ghost first = v@;
                    add_ids(&mut v, edges, i, j);
                    proof {
                        lemma_sorted_len(v@);
                        self.lemma_run_cell(edges, i, j, v@, first);
                    }
                    if v.len() == 1 {
                        proof {
                            assert(old(self)@[key].union(run) =~= old(self)@[key]) by {
                                assert forall|x: u64| run.contains(x) implies x == current_edge by {
                                    assert(v@.to_set().contains(x));
                                    assert(v@.to_set().contains(current_edge));
                                    let q1 = choose|q: int| 0 <= q < v@.len() && v@[q] == x;
                                    let q2 = choose|q: int| 0 <= q < v@.len() && v@[q] == current_edge;
                                }
                            }
                            assert(old(self)@.insert(key, old(self)@[key].union(run)) =~= old(self)@);
                        }
                    } else {
                        self.store_new_cell(key, v);
                    }
                } else {
                    proof {
                        assert(self.m@.contains_key(key) && self.m@[key] == current_edge);
                        assert(current_edge - MSB < self.bundles@.len());
                        assert(bundle_ok(self.bundles@[current_edge - MSB]@));
                    }
                    let hv = clear_msb(current_edge);
                    assert(hv < self.bundles.len());
                    let h = hv as usize;
                    let mut v = copy_ids(&self.bundles[h]);
                    proof {
                        assert(old(self)@[key] == v@.to_set());
                        lemma_sorted_len(v@);
                    }
                    add_ids(&mut v, edges, i, j);
                    proof {
                        lemma_sorted_len(v@);
                        assert(v@.len() >= 2) by {
                            vstd::set_lib::lemma_len_subset(old(self).bundles@[h as int]@.to_set(), v@.to_set());
                            old(self).bundles@[h as int]@.unique_seq_to_set();
                            lemma_sorted_len(old(self).bundles@[h as int]@);
                        }
                    }
                    self.bundles.set(h, v);
                    proof {
                        self.lemma_after_bundle_update(*old(self), key, h as int);
                    }
                }
            },
        }
    }

    /// The vector built for a run holds its first id, so it is not empty,
    /// and every id in it is below the high bit.
    proof fn lemma_run_cell(&self, edges: &[Edge], i: usize, j: usize, v: Seq<u64>, start: Seq<u64>)
        requires
            i < j <= edges@.len(),
            forall|t: int| i <= t < j ==> (#[trigger] edges@[t]).id < MSB,
            forall|t: int| 0 <= t < start.len() ==> #[trigger] start[t] < MSB,
            v.to_set() == start.to_set().union(run_ids(edges@, i as int, j as int)),
            forall|t: int| 0 <= t < v.len() ==> start.contains(#[trigger] v[t]) || run_ids(edges@, i as int, j as int).contains(v[t]),
        ensures
            v.len() >= 1,
            forall|t: int| 0 <= t < v.len() ==> #[trigger] v[t] < MSB,
    {
        let x = edges@[i as int].id;
        assert(run_ids(edges@, i as int, j as int).contains(x));
        assert(v.to_set().contains(x));
        assert forall|t: int| 0 <= t < v.len() implies #[trigger] v[t] < MSB by {
            if start.contains(v[t]) {
                let q = choose|q: int| 0 <= q < start.len() && start[q] == v[t];
            } else {
                let q = choose|q: int| i <= q < j && (#[trigger] edges@[q]).id == v[t];
            }
        }
    }

    /// Writes an absent or single-id cell anew from the ids `v`: the id
    /// itself when there is one, else a fresh bundle.
    fn store_new_cell(&mut self, key: (u64, u64), v: Vec<u64>)
        requires
            old(self).wf(),
            key.0 < old(self).rows(),
            key.1 < old(self).cols(),
            old(self).slots() + 1 < MSB,
            old(self)@.contains_key(key) ==> old(self).cell_value(key) < MSB,
            ids_sorted(v@),
            v@.len() >= 1,
            forall|t: int| 0 <= t < v@.len() ==> #[trigger] v@[t] < MSB,
        ensures
            final(self).wf(),
            final(self)@ == old(self)@.insert(key, v@.to_set()),
            final(self).rows() == old(self).rows(),
            final(self).cols() == old(self).cols(),
            final(self).slots() <= old(self).slots() + 1,
    {
        proof {
            self.m.lemma_wf();
        }
        if v.len() == 1 {
            let id = v[0];
            self.m.set_element_u64(id, key.0, key.1);
            proof {
                assert(v@.to_set() =~= set![id]) by {
                    assert forall|x: u64| v@.to_set().contains(x) implies x == id by {
                        let q = choose|q: int| 0 <= q < v@.len() && v@[q] == x;
                    }
                    assert(v@.contains(id)) by {
                        assert(v@[0] == id);
                    }
                }
                self.lemma_after_set(*old(self), key, id);
            }
        } else {
            let ghost vs = v@;
            let h = self.alloc_bundle(v);
            let tagged = set_msb(h);
            self.m.set_element_u64(tagged, key.0, key.1);
            proof {
                assert(self.bundles@[h as int]@ == vs);
                self.lemma_after_set(*old(self), key, tagged);
            }
        }
    }

    /// Removes the cells of `edges` outright, whatever they hold.
    pub fn remove_elements_flat(&mut self, edges: &[Edge])
        requires
            old(self).wf(),
            forall|t: int|
                0 <= t < edges@.len() ==> (#[trigger] edges@[t]).src_id < old(self).rows()
                    && edges@[t].dest_id < old(self).cols(),
        ensures
            final(self).wf(),
            final(self)@ == old(self)@.remove_keys(cells_of(edges@)),
            final(self).rows() == old(self).rows(),
            final(self).cols() == old(self).cols(),
            final(self).slots() == old(self).slots(),
    {
        let ghost es = edges@;
        let mut k: usize = 0;
        proof {
            assert(cells_of(es.take(0)) =~= Set::<(u64, u64)>::empty());
            assert(old(self)@ =~= old(self)@.remove_keys(cells_of(es.take(0))));
        }
        while k < edges.len()
            invariant
                self.wf(),
                es == edges@,
                k <= es.len(),
                self@ == old(self)@.remove_keys(cells_of(es.take(k as int))),
                self.m@.dom().subset_of(old(self).m@.dom()),
                forall|c: (u64, u64)| #[trigger] self.m@.contains_key(c) ==> self.m@[c] == old(self).m@[c],
                self.bundles == old(self).bundles,
                self.rows() == old(self).rows(),
                self.cols() == old(self).cols(),
                forall|t: int|
                    0 <= t < es.len() ==> (#[trigger] es[t]).src_id < old(self).rows() && es[t].dest_id
                        < old(self).cols(),
            decreases es.len() - k,
        {
            let e = edges[k];
            let ghost prev = *self;
            self.m.remove_element(e.src_id, e.dest_id);
            proof {
                let nk = (k + 1) as int;
                assert forall|c: (u64, u64)| #[trigger] self@.contains_key(c) == old(self)@.remove_keys(cells_of(es.take(nk))).contains_key(c)
                    && (self@.contains_key(c) ==> self@[c] == old(self)@.remove_keys(cells_of(es.take(nk)))[c]) by {
                    lemma_ids_step(es, k as int, c);
                    assert(es[k as int] == e);
                    assert(self.m@ == prev.m@.remove((e.src_id, e.dest_id)));
                    assert(self.bundles == prev.bundles);
                    assert(cells_of(es.take(nk)).contains(c) == (cells_of(es.take(k as int)).contains(c)
                        || c == (e.src_id, e.dest_id)));
                    assert(prev@.contains_key(c) == prev.m@.contains_key(c));
                    if self.m@.contains_key(c) {
                        assert(prev.m@.contains_key(c));
                        assert(self@[c] == prev@[c]);
                    }
                }
                assert(self@ =~= old(self)@.remove_keys(cells_of(es.take(nk))));
                assert forall|k1: (u64, u64), k2: (u64, u64)|
                    #[trigger] self.m@.contains_key(k1) && #[trigger] self.m@.contains_key(k2) && self.m@[k1]
                        >= MSB && self.m@[k1] == self.m@[k2] implies k1 == k2 by {
                    assert(prev.m@.contains_key(k1) && prev.m@.contains_key(k2));
                }
                assert forall|c: (u64, u64)| #[trigger]
                    self.m@.contains_key(c) && self.m@[c] >= MSB implies (self.m@[c] - MSB) < self.bundles@.len()
                        && bundle_ok(self.bundles@[self.m@[c] - MSB]@) by {
                    assert(prev.m@.contains_key(c));
                }
            }
            k = k + 1;
        }
        proof {
            assert(es.take(es.len() as int) == es);
        }
    }
    /// Takes the edges of `edges` (grouped by cell, each present in its cell)
    /// out of their cells. A bundle left with one id becomes that id; a cell
    /// left empty is removed. Returns, for each removed cell, the position in
    /// `edges` where its group starts.
    pub fn remove_elements(&mut self, edges: &[Edge]) -> (r: Vec<usize>)
        requires
            old(self).wf(),
            edges_grouped(edges@),
            forall|t: int|
                0 <= t < edges@.len() ==> old(self)@.contains_key(edge_key(#[trigger] edges@[t]))
                    && old(self)@[edge_key(edges@[t])].contains(edges@[t].id),
        ensures
            final(self).wf(),
            final(self)@ == without_edges(old(self)@, edges@),
            final(self).rows() == old(self).rows(),
            final(self).cols() == old(self).cols(),
            final(self).slots() == old(self).slots(),
            forall|u: int| 0 <= u < r@.len() ==> #[trigger] r@[u] < edges@.len(),
            forall|u: int, w: int| 0 <= u < w < r@.len() ==> #[trigger] r@[u] < #[trigger] r@[w],
            forall|u: int| 0 <= u < r@.len() ==> (#[trigger] r@[u] == 0 || edge_key(edges@[r@[u] - 1]) != edge_key(
                edges@[r@[u] as int],
            )),
            forall|c: (u64, u64)|
                (exists|u: int| 0 <= u < r@.len() && edge_key(edges@[#[trigger] r@[u] as int]) == c)
                    <==> (#[trigger] old(self)@.contains_key(c) && !final(self)@.contains_key(c)),
            forall|c: (u64, u64)| #[trigger] old(self)@.contains_key(c) && old(self).cell_value(c) >= MSB
                && (!final(self)@.contains_key(c) || final(self).cell_value(c) < MSB)
                ==> final(self).released().contains((old(self).cell_value(c) - MSB) as u64),
    {
        let ghost es = edges@;
        let ghost old_view = old(self)@;
        proof {
            old(self).lemma_shape();
            assert forall|c: (u64, u64)| ids_at(es.take(0), c) == Set::<u64>::empty() by {
                assert(ids_at(es.take(0), c) =~= Set::<u64>::empty());
            }
            assert forall|c: (u64, u64)| #[trigger] old_view.contains_key(c) implies old_view[c].difference(Set::<u64>::empty()) == old_view[c]
                && !old_view[c].subset_of(Set::<u64>::empty()) by {
                assert(old_view[c].difference(Set::<u64>::empty()) =~= old_view[c]);
                if old_view[c].subset_of(Set::<u64>::empty()) {
                    assert(old_view[c] =~= Set::<u64>::empty());
                }
            }
            assert(old_view =~= without_edges(old_view, es.take(0)));
        }
        let mut cleared: Vec<usize> = Vec::new();
        let n = edges.len();
        let mut i: usize = 0;
        while i < n
            invariant
                self.wf(),
                es == edges@,
                n == es.len(),
                old_view == old(self)@,
                edges_grouped(es),
                forall|t: int|
                    0 <= t < es.len() ==> old_view.contains_key(edge_key(#[trigger] es[t]))
                        && old_view[edge_key(es[t])].contains(es[t].id),
                forall|c: (u64, u64)| #[trigger] old_view.contains_key(c) ==> old_view[c].finite() && old_view[c].len() >= 1,
                i <= n,
                i < n ==> forall|t: int| 0 <= t < i ==> key_lt(edge_key(#[trigger] es[t]), edge_key(es[i as int])),
                self@ == without_edges(old_view, es.take(i as int)),
                self.rows() == old(self).rows(),
                self.cols() == old(self).cols(),
                self.slots() == old(self).slots(),
                forall|u: int| 0 <= u < cleared@.len() ==> #[trigger] cleared@[u] < i,
                forall|u: int, w: int| 0 <= u < w < cleared@.len() ==> #[trigger] cleared@[u] < #[trigger] cleared@[w],
                forall|u: int| 0 <= u < cleared@.len() ==> (#[trigger] cleared@[u] == 0 || edge_key(es[cleared@[u] - 1]) != edge_key(
                    es[cleared@[u] as int],
                )),
                forall|c: (u64, u64)|
                    (exists|u: int| 0 <= u < cleared@.len() && edge_key(es[#[trigger] cleared@[u] as int]) == c)
                        <==> (#[trigger] old_view.contains_key(c) && !self@.contains_key(c)),
                forall|c: (u64, u64)| !has_cell(es.take(i as int), c) ==> (#[trigger] self.m@.contains_key(c)
                    == old(self).m@.contains_key(c) && (self.m@.contains_key(c) ==> self.m@[c] == old(self).m@[c])),
                forall|x: u64| #[trigger] old(self).free@.contains(x) ==> self.free@.contains(x),
                forall|c: (u64, u64)| #[trigger] old(self).m@.contains_key(c) && old(self).m@[c] >= MSB
                    && (!self.m@.contains_key(c) || self.m@[c] < MSB) ==> self.free@.contains((old(self).m@[c] - MSB) as u64),
            decreases n - i,
        {
            let e = edges[i];
            let src = e.src_id;
            let dest = e.dest_id;
            let key = (src, dest);
            let ghost pc = cleared@;
            let mut j: usize = i + 1;
            let mut more = j < n;
            while more
                invariant
                    i < j <= n,
                    n == es.len(),
                    es == edges@,
                    e == es[i as int],
                    key == edge_key(e),
                    src == e.src_id,
                    dest == e.dest_id,
                    more ==> j < n,
                    !more ==> j == n || edge_key(es[j as int]) != key,
                    forall|t: int| i <= t < j ==> edge_key(#[trigger] es[t]) == key,
                decreases (n - j) as int + (if more { 1int } else { 0int }),
            {
                let f = edges[j];
                if f.src_id == src && f.dest_id == dest {
                    j = j + 1;
                    more = j < n;
                } else {
                    more = false;
                }
            }
            proof {
                assert(ids_at(es.take(i as int), key) =~= Set::<u64>::empty()) by {
                    assert forall|id: u64| !ids_at(es.take(i as int), key).contains(id) by {
                        if ids_at(es.take(i as int), key).contains(id) {
                            let t = choose|t: int|
                                0 <= t < es.take(i as int).len() && edge_key(#[trigger] es.take(i as int)[t]) == key
                                    && es.take(i as int)[t].id == id;
                            assert(key_lt(edge_key(es[t]), edge_key(es[i as int])));
                        }
                    }
                }
                assert(self@.contains_key(key));
                assert(self@[key] == old_view[key]) by {
                    assert(old_view[key].difference(Set::<u64>::empty()) =~= old_view[key]);
                }
                self.m.lemma_wf();
            }
            let ghost prev = *self;
            let current = self.m.extract_element_u64(src, dest);
            let cur = current.unwrap();
            let ghost group_ids = ids_at(es.take(j as int), key);
            proof {
                assert forall|c: (u64, u64)| c != key implies ids_at(es.take(j as int), c) == ids_at(es.take(i as int), c) by {
                    lemma_ids_range(es, i as int, j as int, key, c);
                }
                assert(group_ids.subset_of(old_view[key])) by {
                    assert forall|id: u64| group_ids.contains(id) implies old_view[key].contains(id) by {
                        let t = choose|t: int|
                            0 <= t < es.take(j as int).len() && edge_key(#[trigger] es.take(j as int)[t]) == key
                                && es.take(j as int)[t].id == id;
                        assert(es[t] == es.take(j as int)[t]);
                    }
                }
                assert(old_view[key].contains(e.id));
                assert(group_ids.contains(e.id)) by {
                    assert(es.take(j as int)[i as int] == e);
                }
            }
            if single_edge(cur) {
                proof {
                    assert(old_view[key] == set![cur]) by {
                        self.lemma_shape();
                    }
                    assert(old_view[key].subset_of(group_ids)) by {
                        assert forall|id: u64| old_view[key].contains(id) implies group_ids.contains(id) by {
                            assert(id == cur);
                            assert(e.id == cur);
                        }
                    }
                }
                self.m.remove_element(src, dest);
                cleared.push(i);
                proof {
                    self.lemma_after_remove(prev, key);
                }
            } else {
                proof {
                    assert(self.m@.contains_key(key) && self.m@[key] == cur);
                    assert(cur - MSB < self.bundles@.len());
                }
                let hv = clear_msb(cur);
                assert(hv < self.bundles.len());
                let h = hv as usize;
                let mut v = copy_ids(&self.bundles[h]);
                proof {
                    assert(bundle_ok(self.bundles@[h as int]@));
                }
                let mut k: usize = i;
                proof {
                    assert(v@.to_set().difference(ids_at(es.take(i as int), key)) =~= v@.to_set());
                }
                while k < j
                    invariant
                        i <= k <= j,
                        j <= n,
                        n == es.len(),
                        es == edges@,
                        ids_sorted(v@),
                        v@.to_set() == prev.bundles@[h as int]@.to_set().difference(ids_at(es.take(k as int), key)),
                        forall|t: int| 0 <= t < v@.len() ==> prev.bundles@[h as int]@.contains(#[trigger] v@[t]),
                        forall|t: int| i <= t < j ==> edge_key(#[trigger] es[t]) == key,
                        ids_sorted(prev.bundles@[h as int]@),
                    decreases j - k,
                {
                    let ghost before = v@;
                    remove_sorted(&mut v, edges[k].id);
                    proof {
                        lemma_ids_step(es, k as int, key);
                        assert(v@.to_set() =~= prev.bundles@[h as int]@.to_set().difference(ids_at(es.take(k + 1), key)));
                        assert forall|t: int| 0 <= t < v@.len() implies prev.bundles@[h as int]@.contains(#[trigger] v@[t]) by {
                            assert(before.contains(v@[t]));
                            let q = choose|q: int| 0 <= q < before.len() && before[q] == v@[t];
                        }
                    }
                    k = k + 1;
                }
                proof {
                    lemma_sorted_len(v@);
                    assert(prev@[key] == prev.bundles@[h as int]@.to_set());
                    assert(v@.to_set() == old_view[key].difference(group_ids));
                }
                if v.len() == 0 {
                    proof {
                        assert(old_view[key].subset_of(group_ids)) by {
                            assert forall|id: u64| old_view[key].contains(id) implies group_ids.contains(id) by {
                                if !group_ids.contains(id) {
                                    assert(v@.to_set().contains(id));
                                }
                            }
                        }
                    }
                    self.m.remove_element(src, dest);
                    cleared.push(i);
                    proof {
                        self.lemma_after_remove(prev, key);
                        assert forall|k2: (u64, u64)| #[trigger] self.m@.contains_key(k2) && self.m@[k2] >= MSB implies self.m@[k2] != hv + MSB by {
                            assert(prev.m@.contains_key(k2) && prev.m@[k2] == self.m@[k2]);
                        }
                    }
                    self.release(hv);
                } else if v.len() == 1 {
                    let only = v[0];
                    proof {
                        assert(prev.bundles@[h as int]@.contains(only));
                        assert(v@.to_set() =~= set![only]) by {
                            assert forall|y: u64| v@.to_set().contains(y) implies y == only by {
                                let q = choose|q: int| 0 <= q < v@.len() && v@[q] == y;
                            }
                            assert(v@.contains(only)) by { assert(v@[0] == only); }
                        }
                        let q = choose|q: int| 0 <= q < prev.bundles@[h as int]@.len() && prev.bundles@[h as int]@[q] == only;
                        assert(only < MSB);
                        assert(!old_view[key].subset_of(group_ids)) by {
                            assert(v@[0] == only);
                            assert(v@.contains(only));
                            assert(v@.to_set().contains(only));
                            assert(old_view[key].contains(only) && !group_ids.contains(only));
                        }
                    }
                    self.m.set_element_u64(only, src, dest);
                    proof {
                        self.lemma_after_set(prev, key, only);
                        assert forall|k2: (u64, u64)| #[trigger] self.m@.contains_key(k2) && self.m@[k2] >= MSB implies self.m@[k2] != hv + MSB by {
                            if k2 != key {
                                assert(prev.m@.contains_key(k2) && prev.m@[k2] == self.m@[k2]);
                            }
                        }
                    }
                    self.release(hv);
                } else {
                    proof {
                        assert forall|t: int| 0 <= t < v@.len() implies #[trigger] v@[t] < MSB by {
                            let q = choose|q: int| 0 <= q < prev.bundles@[h as int]@.len() && prev.bundles@[h as int]@[q] == v@[t];
                        }
                        assert(!old_view[key].subset_of(group_ids)) by {
                            assert(v@.to_set().contains(v@[0]));
                        }
                    }
                    self.bundles.set(h, v);
                    proof {
                        self.lemma_after_bundle_update(prev, key, h as int);
                    }
                }
            }
            proof {
                assert forall|c: (u64, u64)| c != key implies (#[trigger] self.m@.contains_key(c) == prev.m@.contains_key(c)
                    && (self.m@.contains_key(c) ==> self.m@[c] == prev.m@[c])) by {
                }
                assert(!has_cell(es.take(i as int), key)) by {
                    if has_cell(es.take(i as int), key) {
                        let t = choose|t: int| 0 <= t < es.take(i as int).len() && edge_key(#[trigger] es.take(i as int)[t]) == key;
                        assert(key_lt(edge_key(es[t]), edge_key(es[i as int])));
                    }
                }
                assert forall|c: (u64, u64)| !has_cell(es.take(j as int), c) implies (#[trigger] self.m@.contains_key(c)
                    == old(self).m@.contains_key(c) && (self.m@.contains_key(c) ==> self.m@[c] == old(self).m@[c])) by {
                    if c == key {
                        assert(has_cell(es.take(j as int), c)) by {
                            assert(es.take(j as int)[i as int] == es[i as int]);
                        }
                    } else {
                        lemma_cells_range(es, i as int, j as int, key, c);
                    }
                }
                assert forall|x: u64| #[trigger] old(self).free@.contains(x) implies self.free@.contains(x) by {
                    assert(prev.free@.contains(x));
                    if self.free@ != prev.free@ {
                        assert(self.free@ == prev.free@.push(self.free@.last()));
                        let q = choose|q: int| 0 <= q < prev.free@.len() && prev.free@[q] == x;
                        assert(self.free@[q] == x);
                    }
                }
                assert forall|c: (u64, u64)| #[trigger] old(self).m@.contains_key(c) && old(self).m@[c] >= MSB
                    && (!self.m@.contains_key(c) || self.m@[c] < MSB) implies self.free@.contains((old(self).m@[c] - MSB) as u64) by {
                    if c != key {
                        assert(prev.free@.contains((old(self).m@[c] - MSB) as u64));
                        if self.free@ != prev.free@ {
                            let q = choose|q: int| 0 <= q < prev.free@.len() && prev.free@[q] == (old(self).m@[c] - MSB) as u64;
                            assert(self.free@[q] == prev.free@[q]);
                        }
                    } else {
                        assert(prev.m@[key] == old(self).m@[key]);
                        assert(self.free@ == prev.free@.push(((old(self).m@[key] - MSB) as u64)));
                        assert(self.free@[prev.free@.len() as int] == ((old(self).m@[key] - MSB) as u64));
                    }
                }
                let nv = without_edges(old_view, es.take(j as int));
                assert forall|c: (u64, u64)| #[trigger] self@.contains_key(c) == nv.contains_key(c)
                    && (self@.contains_key(c) ==> self@[c] == nv[c]) by {
                    if c != key {
                        assert(ids_at(es.take(j as int), c) == ids_at(es.take(i as int), c));
                    }
                }
                assert(self@ =~= nv);
                if j < n {
                    assert forall|t: int| 0 <= t < j implies key_lt(edge_key(#[trigger] es[t]), edge_key(es[j as int])) by {
                        if t < i {
                            assert(key_lt(edge_key(es[t]), key));
                        }
                        assert(key_lt(edge_key(es[i as int]), edge_key(es[j as int])) || edge_key(es[i as int]) == edge_key(es[j as int]));
                    }
                }
                assert((cleared@ == pc.push(i) && !self@.contains_key(key)) || (cleared@ == pc
                    && self@.contains_key(key)));
                assert forall|c: (u64, u64)|
                    (exists|u: int| 0 <= u < cleared@.len() && edge_key(es[#[trigger] cleared@[u] as int]) == c)
                        <==> (#[trigger] old_view.contains_key(c) && !self@.contains_key(c)) by {
                    if c != key {
                        assert(self@.contains_key(c) == prev@.contains_key(c));
                        if old_view.contains_key(c) && !self@.contains_key(c) {
                            assert(exists|u: int| 0 <= u < pc.len() && edge_key(es[#[trigger] pc[u] as int]) == c);
                            let u = choose|u: int| 0 <= u < pc.len() && edge_key(es[#[trigger] pc[u] as int]) == c;
                            assert(cleared@[u] == pc[u]);
                        }
                        if exists|u: int| 0 <= u < cleared@.len() && edge_key(es[#[trigger] cleared@[u] as int]) == c {
                            let u = choose|u: int| 0 <= u < cleared@.len() && edge_key(es[#[trigger] cleared@[u] as int]) == c;
                            if u < pc.len() {
                                assert(pc[u] == cleared@[u]);
                            } else {
                                assert(cleared@[u] == i);
                            }
                        }
                    } else {
                        if exists|u: int| 0 <= u < cleared@.len() && edge_key(es[#[trigger] cleared@[u] as int]) == c {
                            let u = choose|u: int| 0 <= u < cleared@.len() && edge_key(es[#[trigger] cleared@[u] as int]) == c;
                            if u < pc.len() {
                                assert(pc[u] == cleared@[u]);
                                assert(pc[u] < i);
                                assert(key_lt(edge_key(es[pc[u] as int]), edge_key(es[i as int])));
                            }
                        }
                        if !self@.contains_key(c) {
                            assert(cleared@[pc.len() as int] == i);
                        }
                    }
                }
            }
            i = j;
        }
        proof {
            assert(es.take(n as int) == es);
        }
        cleared
    }

    /// After the cell `key` of `prev` is removed, the tensor is well-formed.
    proof fn lemma_after_remove(&self, prev: Tensor, key: (u64, u64))
        requires
            prev.wf(),
            self.m.wf(),
            self.m.elem_type() == ElementType::U64,
            self.m.mirror() is Some,
            self.m@ == prev.m@.remove(key),
            self.bundles == prev.bundles,
            self.free == prev.free,
        ensures
            self.wf(),
            self@ == prev@.remove(key),
    {
        assert forall|k1: (u64, u64), k2: (u64, u64)|
            #[trigger] self.m@.contains_key(k1) && #[trigger] self.m@.contains_key(k2) && self.m@[k1]
                >= MSB && self.m@[k1] == self.m@[k2] implies k1 == k2 by {
            assert(prev.m@.contains_key(k1) && prev.m@.contains_key(k2));
        }
        assert forall|c: (u64, u64)| #[trigger]
            self.m@.contains_key(c) && self.m@[c] >= MSB implies (self.m@[c] - MSB) < self.bundles@.len()
                && bundle_ok(self.bundles@[self.m@[c] - MSB]@) by {
            assert(prev.m@.contains_key(c));
        }
        assert forall|c: (u64, u64)| #[trigger]
            self.m@.contains_key(c) && self.m@[c] >= MSB implies !self.free@.contains((self.m@[c] - MSB) as u64) by {
            assert(prev.m@.contains_key(c));
        }
        assert(self@ =~= prev@.remove(key));
    }
    /// The edges of the cell `(src_id, dest_id)`.
    pub fn iter(&self, src_id: u64, dest_id: u64) -> (r: TensorIterator)
        requires
            self.wf(),
        ensures
            r.wf(),
            ids_sorted(r.remaining()),
            r.src() == src_id,
            r.dest() == dest_id,
            r.remaining().to_set() == (if self@.contains_key((src_id, dest_id)) {
                self@[(src_id, dest_id)]
            } else {
                Set::<u64>::empty()
            }),
    {
        proof {
            self.m.lemma_wf();
        }
        let ids = match self.m.extract_element_u64(src_id, dest_id) {
            Some(v) => {
                if single_edge(v) {
                    let mut ids: Vec<u64> = Vec::new();
                    ids.push(v);
                    proof {
                        assert(ids@ == seq![v]);
                        assert(ids@.to_set() =~= set![v]) by {
                            assert(ids@[0] == v);
                        }
                    }
                    ids
                } else {
                    proof {
                        assert(self.m@.contains_key((src_id, dest_id)));
                    }
                    let hv = clear_msb(v);
                    assert(hv < self.bundles.len());
                    copy_ids(&self.bundles[hv as usize])
                }
            },
            None => {
                let ids: Vec<u64> = Vec::new();
                assert(ids@.to_set() =~= Set::<u64>::empty());
                ids
            },
        };
        let r = TensorIterator { src_id, dest_id, ids, pos: 0 };
        assert(r.remaining() =~= ids@);
        r
    }

    /// The `(src, dest, edge)` triples whose row (`dest` when `transposed`)
    /// lies in `min_src_id..=max_src_id`, in row-major (column-major) order.
    pub fn iter_range(&self, min_src_id: u64, max_src_id: u64, transposed: bool) -> (r: TensorRangeIterator)
        requires
            self.wf(),
        ensures
            r.wf(),
            tri_sorted(transposed, r.remaining()),
            r.remaining().no_duplicates(),
            r.remaining().to_set() == triples_in(self@, transposed, min_src_id, max_src_id),
    {
        let tr = transposed;
        proof {
            self.m.lemma_wf();
        }
        let rows = if tr {
            let t = self.m.transposed().unwrap();
            proof {
                t.lemma_wf();
            }
            t.export().row_range(min_src_id, max_src_id)
        } else {
            self.m.export().row_range(min_src_id, max_src_id)
        };
        let ghost target = triples_in(self@, tr, min_src_id, max_src_id);
        let mut items: Vec<(u64, u64, u64)> = Vec::new();
        let mut k: usize = 0;
        proof {
            assert(items@.to_set() =~= Set::new(|t: (u64, u64, u64)| target.contains(t) && seen_upto(rows@, 0, okey(tr, t))));
        }
        while k < rows.len()
            invariant
                self.wf(),
                sorted(rows@),
                tr ==> seq_map(rows@) == self.m.mirror().unwrap()@.restrict(Set::new(|key: (u64, u64)| min_src_id <= key.0 <= max_src_id)),
                !tr ==> seq_map(rows@) == self.m@.restrict(Set::new(|key: (u64, u64)| min_src_id <= key.0 <= max_src_id)),
                self.m.mirror() is Some,
                self.m.mirror().unwrap()@.dom() == crate::delta_matrix::swapped_dom(self.m@),
                target == triples_in(self@, tr, min_src_id, max_src_id),
                k <= rows@.len(),
                tri_sorted(tr, items@),
                k < rows@.len() ==> forall|t: int| 0 <= t < items@.len() ==> key_lt(okey(tr, #[trigger] items@[t]), ekey(rows@[k as int])),
                items@.to_set() == Set::new(|t: (u64, u64, u64)| target.contains(t) && seen_upto(rows@, k as int, okey(tr, t))),
            decreases rows@.len() - k,
        {
            let e = rows[k];
            let (s, d) = if tr { (e.col, e.row) } else { (e.row, e.col) };
            proof {
                lemma_map_at(rows@, k as int);
                assert(self.m@.contains_key((s, d)));
                assert(min_src_id <= e.row <= max_src_id);
            }
            let v = self.m.extract_element_u64(s, d).unwrap();
            let ghost before = items@;
            let ghost ids: Seq<u64>;
            if single_edge(v) {
                items.push((s, d, v));
                proof {
                    ids = seq![v];
                    assert(ids_sorted(ids));
                    assert(items@ =~= before + cell_items(s, d, ids));
                }
            } else {
                proof {
                    assert(self.m@.contains_key((s, d)));
                }
                let hv = clear_msb(v);
                assert(hv < self.bundles.len());
                let b = &self.bundles[hv as usize];
                proof {
                    assert(bundle_ok(b@));
                }
                let mut q: usize = 0;
                while q < b.len()
                    invariant
                        q <= b@.len(),
                        items@ == before + cell_items(s, d, b@.take(q as int)),
                    decreases b@.len() - q,
                {
                    items.push((s, d, b[q]));
                    q = q + 1;
                    assert(items@ =~= before + cell_items(s, d, b@.take(q as int)));
                }
                proof {
                    ids = b@;
                    assert(b@.take(b@.len() as int) == b@);
                }
            }
            proof {
                assert(self@[(s, d)] == ids.to_set()) by {
                    if v < MSB {
                        assert(ids.to_set() =~= set![v]) by {
                            assert(ids[0] == v);
                        }
                    }
                }
                assert(okey(tr, (s, d, 0u64)) == ekey(e));
                lemma_cell_items(tr, before, s, d, ids);
                let nk = (k + 1) as int;
                assert forall|t: (u64, u64, u64)| #[trigger] items@.to_set().contains(t) == (target.contains(t) && seen_upto(rows@, nk, okey(tr, t))) by {
                    if seen_upto(rows@, nk, okey(tr, t)) && !seen_upto(rows@, k as int, okey(tr, t)) {
                        let p = choose|p: int| 0 <= p < nk && ekey(#[trigger] rows@[p]) == okey(tr, t);
                        assert(p == k);
                        assert(t.0 == s && t.1 == d);
                    }
                    if seen_upto(rows@, k as int, okey(tr, t)) {
                        let p = choose|p: int| 0 <= p < k && ekey(#[trigger] rows@[p]) == okey(tr, t);
                        assert(seen_upto(rows@, nk, okey(tr, t)));
                    }
                    if t.0 == s && t.1 == d {
                        assert(seen_upto(rows@, nk, okey(tr, t))) by {
                            assert(ekey(rows@[k as int]) == okey(tr, t));
                        }
                        if seen_upto(rows@, k as int, okey(tr, t)) {
                            let p = choose|p: int| 0 <= p < k && ekey(#[trigger] rows@[p]) == okey(tr, t);
                            assert(key_lt(ekey(rows@[p]), ekey(rows@[k as int])));
                        }
                    }
                }
                assert(items@.to_set() =~= Set::new(|t: (u64, u64, u64)| target.contains(t) && seen_upto(rows@, nk, okey(tr, t))));
                if k + 1 < rows@.len() {
                    assert(key_lt(ekey(rows@[k as int]), ekey(rows@[k + 1])));
                }
            }
            k = k + 1;
        }
        proof {
            assert forall|t: (u64, u64, u64)| target.contains(t) implies seen_upto(rows@, rows@.len() as int, okey(tr, t)) by {
                let key = okey(tr, t);
                assert(seq_map(rows@).contains_key(key));
                let p = choose|p: int| 0 <= p < rows@.len() && ekey(#[trigger] rows@[p]) == key;
            }
            assert(items@.to_set() =~= target);
            assert forall|a: int, b: int| 0 <= a < items@.len() && 0 <= b < items@.len() && a != b implies items@[a] != items@[b] by {
                if a < b {
                    assert(tri_lt(tr, items@[a], items@[b]));
                } else {
                    assert(tri_lt(tr, items@[b], items@[a]));
                }
            }
        }
        let r = TensorRangeIterator { items, pos: 0 };
        assert(r.remaining() =~= items@);
        r
    }

    /// Number of edges leaving node `id`: the size of every cell in its row.
    pub fn row_degree(&self, id: u64) -> (r: u64)
        requires
            self.wf(),
        ensures
            r == triples_in(self@, false, id, id).len(),
    {
        let it = self.iter_range(id, id, false);
        proof {
            it.remaining().unique_seq_to_set();
        }
        it.len() as u64
    }

    /// Number of edges entering node `id`: the size of every cell in its column.
    pub fn col_degree(&self, id: u64) -> (r: u64)
        requires
            self.wf(),
        ensures
            r == triples_in(self@, true, id, id).len(),
    {
        let it = self.iter_range(id, id, true);
        proof {
            it.remaining().unique_seq_to_set();
        }
        it.len() as u64
    }
}

/// The edges of one cell, by increasing id.
pub struct TensorIterator {
    src_id: u64,
    dest_id: u64,
    ids: Vec<u64>,
    pos: usize,
}

impl TensorIterator {
    pub closed spec fn remaining(&self) -> Seq<u64> {
        self.ids@.skip(self.pos as int)
    }

    pub closed spec fn src(&self) -> u64 {
        self.src_id
    }

    pub closed spec fn dest(&self) -> u64 {
        self.dest_id
    }

    pub closed spec fn wf(&self) -> bool {
        self.pos <= self.ids@.len()
    }

    /// The next `(src, dest, edge)` triple, if any.
    pub fn next(&mut self) -> (r: Option<(u64, u64, u64)>)
        requires
            old(self).wf(),
        ensures
            final(self).wf(),
            final(self).src() == old(self).src(),
            final(self).dest() == old(self).dest(),
            old(self).remaining().len() == 0 ==> r is None && final(self).remaining() == old(self).remaining(),
            old(self).remaining().len() > 0 ==> r == Some((old(self).src(), old(self).dest(), old(self).remaining()[0]))
                && final(self).remaining() == old(self).remaining().drop_first(),
    {
        if self.pos < self.ids.len() {
            let id = self.ids[self.pos];
            self.pos = self.pos + 1;
            assert(self.remaining() =~= old(self).remaining().drop_first());
            Some((self.src_id, self.dest_id, id))
        } else {
            None
        }
    }
}

/// The `(src, dest, edge)` triples of a range of rows (or columns) of a tensor.
pub struct TensorRangeIterator {
    items: Vec<(u64, u64, u64)>,
    pos: usize,
}

impl TensorRangeIterator {
    pub closed spec fn remaining(&self) -> Seq<(u64, u64, u64)> {
        self.items@.skip(self.pos as int)
    }

    pub closed spec fn wf(&self) -> bool {
        self.pos <= self.items@.len()
    }

    /// Number of triples still to come.
    pub fn len(&self) -> (r: usize)
        requires
            self.wf(),
        ensures
            r == self.remaining().len(),
    {
        self.items.len() - self.pos
    }

    /// The next triple, if any.
    pub fn next(&mut self) -> (r: Option<(u64, u64, u64)>)
        requires
            old(self).wf(),
        ensures
            final(self).wf(),
            old(self).remaining().len() == 0 ==> r is None && final(self).remaining() == old(self).remaining(),
            old(self).remaining().len() > 0 ==> r == Some(old(self).remaining()[0])
                && final(self).remaining() == old(self).remaining().drop_first(),
    {
        if self.pos < self.items.len() {
            let t = self.items[self.pos];
            self.pos = self.pos + 1;
            assert(self.remaining() =~= old(self).remaining().drop_first());
            Some(t)
        } else {
            None
        }
    }
}

} // verus!

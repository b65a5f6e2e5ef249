use vstd::prelude::*;
use crate::graph_entity::Edge;

verus! {

/// Sort key of an edge: `(relation, src, dest)`, or `(0, src, dest)` when
/// relations are ignored.
pub open spec fn sort_key(e: Edge, by_relation: bool) -> (int, u64, u64) {
    (if by_relation { e.relation_id as int } else { 0 }, e.src_id, e.dest_id)
}

/// Lexicographic order on sort keys.
pub open spec fn key_le(a: (int, u64, u64), b: (int, u64, u64)) -> bool {
    a.0 < b.0 || (a.0 == b.0 && (a.1 < b.1 || (a.1 == b.1 && a.2 <= b.2)))
}

/// Edges in non-decreasing key order.
pub open spec fn sorted_by(s: Seq<Edge>, by_relation: bool) -> bool {
    forall|a: int, b: int| 0 <= a < b < s.len() ==> key_le(sort_key(#[trigger] s[a], by_relation), sort_key(#[trigger] s[b], by_relation))
}

/// `a` and `b` list the same cells, position by position.
pub open spec fn same_cells(a: Seq<Edge>, b: Seq<Edge>) -> bool {
    &&& a.len() == b.len()
    &&& forall|t: int| 0 <= t < a.len() ==> (#[trigger] a[t]).src_id == b[t].src_id && a[t].dest_id == b[t].dest_id
}

/// A member of a permutation of `b` is a member of `b`.
pub proof fn lemma_perm_member(a: Seq<Edge>, b: Seq<Edge>, i: int)
    requires
        a.to_multiset() == b.to_multiset(),
        0 <= i < a.len(),
    ensures
        exists|j: int| 0 <= j < b.len() && b[j] == a[i],
{
    vstd::seq_lib::to_multiset_contains(a, a[i]);
    vstd::seq_lib::to_multiset_contains(b, a[i]);
    assert(a.contains(a[i]));
}

fn le(a: &Edge, b: &Edge, by_relation: bool) -> (r: bool)
    ensures
        r == key_le(sort_key(*a, by_relation), sort_key(*b, by_relation)),
{
    let ra: i64 = if by_relation { a.relation_id as i64 } else { 0 };
    let rb: i64 = if by_relation { b.relation_id as i64 } else { 0 };
    ra < rb || (ra == rb && (a.src_id < b.src_id || (a.src_id == b.src_id && a.dest_id <= b.dest_id)))
}

/// Sorts `v` by `(relation, src, dest)` (or `(src, dest)`), keeping each
/// edge: the result is a permutation of the input.
pub fn sort_edges(v: &mut Vec<Edge>, by_relation: bool)
    ensures
        sorted_by(final(v)@, by_relation),
        final(v)@.to_multiset() == old(v)@.to_multiset(),
        final(v)@.len() == old(v)@.len(),
{
    let ghost s = v@;
    let mut out: Vec<Edge> = Vec::new();
    let mut k: usize = 0;
    proof {
        assert(s.take(0) =~= Seq::<Edge>::empty());
        assert(out@ =~= Seq::<Edge>::empty());
    }
    while k < v.len()
        invariant
            v@ == s,
            k <= s.len(),
            sorted_by(out@, by_relation),
            out@.to_multiset() == s.take(k as int).to_multiset(),
            out@.len() == k,
        decreases s.len() - k,
    {
        let e = v[k];
        let mut p: usize = 0;
        while p < out.len()
            invariant
                p <= out@.len(),
                forall|t: int| 0 <= t < p ==> key_le(sort_key(#[trigger] out@[t], by_relation), sort_key(e, by_relation)),
            ensures
                p <= out@.len(),
                forall|t: int| 0 <= t < p ==> key_le(sort_key(#[trigger] out@[t], by_relation), sort_key(e, by_relation)),
                p < out@.len() ==> !key_le(sort_key(out@[p as int], by_relation), sort_key(e, by_relation)),
            decreases out@.len() - p,
        {
            if !le(&out[p], &e, by_relation) {
                break;
            }
            p = p + 1;
        }
        let ghost o = out@;
        out.insert(p, e);
        proof {
            let n = out@;
            assert(n == o.insert(p as int, e));
            vstd::seq_lib::to_multiset_insert(o, p as int, e);
            assert(s.take(k + 1) == s.take(k as int).push(e));
            vstd::seq_lib::to_multiset_build(s.take(k as int), e);
            assert forall|a: int, b: int| 0 <= a < b < n.len() implies key_le(sort_key(#[trigger] n[a], by_relation), sort_key(#[trigger] n[b], by_relation)) by {
                if b < p {
                } else if a > p {
                    assert(n[a] == o[a - 1] && n[b] == o[b - 1]);
                } else if a == p {
                    assert(n[b] == o[b - 1]);
                    if b - 1 > p {
                        assert(key_le(sort_key(o[p as int], by_relation), sort_key(o[b - 1], by_relation)));
                    }
                } else if b == p {
                    assert(n[a] == o[a]);
                } else {
                    assert(n[a] == o[a] && n[b] == o[b - 1]);
                    assert(key_le(sort_key(o[a], by_relation), sort_key(e, by_relation)));
                }
            }
        }
        k = k + 1;
    }
    proof {
        assert(s.take(s.len() as int) == s);
    }
    *v = out;
}

} // verus!

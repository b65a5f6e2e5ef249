use vstd::prelude::*;
use crate::datablock::{DataBlock, live_count, live_set, lemma_live_set};
use crate::delta_matrix::DeltaMatrix;
use crate::delta_matrix_iter::DeltaMatrixIter;
use crate::graph_entity::{Edge, EdgeID, LabelID, Node, NodeID, RelationID};
use crate::sparse_matrix::{ElementType, ekey, lemma_map_at};
use crate::tensor::{MSB, Tensor, edge_key, rel_ids, triples_in, without_edges};

verus! {

/// Id of an entity that has not been given one yet.
pub const INVALID_ENTITY_ID: NodeID = 0xffff_ffff_ffff_ffff;

/// What a read-path matrix accessor may do to the matrix it returns.
#[derive(Clone, Copy, Debug, PartialEq, Eq, Structural)]
pub enum MatrixPolicy {
    /// Grow to the node capacity and flush pending changes.
    FlushResize,
    /// Grow only.
    Resize,
    /// Neither.
    Nop,
}

/// Direction of the edges of a node.
#[derive(Clone, Copy, Debug, PartialEq, Eq, Structural)]
pub enum GraphEdgeDir {
    Incoming,
    Outgoing,
    Both,
}

/// Per-label node counters and per-relation edge counters.
struct GraphStatistics {
    node_count: Vec<u64>,
    edge_count: Vec<u64>,
}

impl GraphStatistics {
    fn introduce_label(&mut self)
        ensures
            final(self).node_count@ == old(self).node_count@.push(0),
            final(self).edge_count@ == old(self).edge_count@,
    {
        self.node_count.push(0);
    }

    fn increment_node_count(&mut self, l: LabelID, arg: u64)
        requires
            0 <= l < old(self).node_count@.len(),
            old(self).node_count@[l as int] + arg <= u64::MAX,
        ensures
            final(self).node_count@ == old(self).node_count@.update(l as int, (old(self).node_count@[l as int] + arg) as u64),
            final(self).edge_count@ == old(self).edge_count@,
    {
        let c = self.node_count[l as usize];
        self.node_count.set(l as usize, c + arg);
    }

    fn decrement_node_count(&mut self, l: LabelID, arg: u64)
        requires
            0 <= l < old(self).node_count@.len(),
            old(self).node_count@[l as int] >= arg,
        ensures
            final(self).node_count@ == old(self).node_count@.update(l as int, (old(self).node_count@[l as int] - arg) as u64),
            final(self).edge_count@ == old(self).edge_count@,
    {
        let c = self.node_count[l as usize];
        self.node_count.set(l as usize, c - arg);
    }

    fn introduce_relationship(&mut self)
        ensures
            final(self).edge_count@ == old(self).edge_count@.push(0),
            final(self).node_count@ == old(self).node_count@,
    {
        self.edge_count.push(0);
    }

    /// Adds `arg` to the edge counter of `r`, saturating.
    fn increment_edge_count(&mut self, r: RelationID, arg: u64)
        requires
            0 <= r < old(self).edge_count@.len(),
        ensures
            final(self).edge_count@ == old(self).edge_count@.update(
                r as int,
                if old(self).edge_count@[r as int] + arg <= u64::MAX {
                    (old(self).edge_count@[r as int] + arg) as u64
                } else {
                    u64::MAX
                },
            ),
            final(self).node_count@ == old(self).node_count@,
    {
        let c = self.edge_count[r as usize];
        let n = if c > u64::MAX - arg { u64::MAX } else { c + arg };
        self.edge_count.set(r as usize, n);
    }

    /// Takes `arg` from the edge counter of `r`, stopping at zero.
    fn decrement_edge_count(&mut self, r: RelationID, arg: u64)
        requires
            0 <= r < old(self).edge_count@.len(),
        ensures
            final(self).edge_count@ == old(self).edge_count@.update(
                r as int,
                if old(self).edge_count@[r as int] >= arg {
                    (old(self).edge_count@[r as int] - arg) as u64
                } else {
                    0
                },
            ),
            final(self).node_count@ == old(self).node_count@,
    {
        let c = self.edge_count[r as usize];
        let n = if c >= arg { c - arg } else { 0 };
        self.edge_count.set(r as usize, n);
    }
}

/// Whether some relation of `rels` has a cell at `key`.
pub open spec fn some_relation_has(rels: Seq<Tensor>, key: (u64, u64)) -> bool {
    exists|r: int| 0 <= r < rels.len() && (#[trigger] rels[r])@.contains_key(key)
}

/// A set of diagonal coordinates below `d` has at most `d` elements.
pub proof fn lemma_diag_bound(s: Set<(u64, u64)>, d: u64)
    requires
        s.finite(),
        forall|k: (u64, u64)| #[trigger] s.contains(k) ==> k.0 == k.1 && k.0 < d,
    ensures
        s.len() <= d,
{
    let x = vstd::set_lib::set_int_range(0, d as int);
    let f = |i: int| (i as u64, i as u64);
    vstd::set_lib::lemma_int_range(0, d as int);
    vstd::set_lib::lemma_map_size_bound(x, x.map(f), f);
    assert forall|k: (u64, u64)| s.contains(k) implies x.map(f).contains(k) by {
        assert(x.contains(k.0 as int));
        assert(f(k.0 as int) == k);
    }
    vstd::set_lib::lemma_len_subset(s, x.map(f));
}

/// Relation `q` of `g` holds edge `id` in cell `key`.
pub open spec fn holds(g: Graph, q: int, key: (u64, u64), id: u64) -> bool {
    rel_holds(g.tensors(), q, key, id)
}

/// Relation `q` of `rels` holds edge `id` in cell `key`.
pub open spec fn rel_holds(rels: Seq<Tensor>, q: int, key: (u64, u64), id: u64) -> bool {
    0 <= q < rels.len() && rels[q]@.contains_key(key) && rels[q]@[key].contains(id)
}

/// Every edge id held by one of `rels` is a live slot of `pool`, held in one
/// cell of one relation only, and `counts[r]` is the number of ids relation
/// `r` holds.
pub open spec fn edges_ok_of(rels: Seq<Tensor>, pool: DataBlock, counts: Seq<u64>) -> bool {
    &&& forall|q: int, key: (u64, u64), id: u64| #[trigger] rel_holds(rels, q, key, id) ==> pool.live(id)
    &&& forall|q1: int, k1: (u64, u64), q2: int, k2: (u64, u64), id: u64|
        #[trigger] rel_holds(rels, q1, k1, id) && #[trigger] rel_holds(rels, q2, k2, id) ==> q1 == q2 && k1 == k2
    &&& forall|r: int| 0 <= r < rels.len() ==> #[trigger] counts[r] == rel_ids(rels[r]@).len()
}

/// Every live slot of `pool` outside `skip` is an edge id held by some relation.
pub open spec fn live_held_except(rels: Seq<Tensor>, pool: DataBlock, skip: Set<u64>) -> bool {
    forall|id: u64| #[trigger] pool.live(id) && !skip.contains(id) ==> exists|q: int, key: (u64, u64)| rel_holds(rels, q, key, id)
}

/// Which ids are held depends on the relations' cells alone.
pub proof fn lemma_live_held_views(r1: Seq<Tensor>, r2: Seq<Tensor>, pool: DataBlock, skip: Set<u64>)
    requires
        live_held_except(r1, pool, skip),
        r1.len() == r2.len(),
        forall|q: int| 0 <= q < r1.len() ==> (#[trigger] r1[q])@ == r2[q]@,
    ensures
        live_held_except(r2, pool, skip),
{
    assert forall|id: u64| #[trigger] pool.live(id) && !skip.contains(id) implies exists|q: int, key: (u64, u64)| rel_holds(r2, q, key, id) by {
        let (q, key) = choose|q: int, key: (u64, u64)| rel_holds(r1, q, key, id);
        assert(r1[q]@ == r2[q]@);
        assert(rel_holds(r2, q, key, id));
    }
}

/// Sum of the first `n` counters.
pub open spec fn sum_counts(c: Seq<u64>, n: int) -> int
    decreases n,
{
    if n <= 0 {
        0
    } else {
        sum_counts(c, n - 1) + c[n - 1]
    }
}

/// Ids held by one of the first `n` relations.
pub open spec fn held_upto(rels: Seq<Tensor>, n: int) -> Set<u64> {
    Set::new(|x: u64| exists|q: int| 0 <= q < n && #[trigger] rel_ids(rels[q]@).contains(x))
}

proof fn lemma_sum_held(rels: Seq<Tensor>, counts: Seq<u64>, n: int)
    requires
        0 <= n <= rels.len(),
        counts.len() == rels.len(),
        forall|q: int| 0 <= q < rels.len() ==> (#[trigger] rels[q]).wf(),
        forall|q: int| 0 <= q < rels.len() ==> #[trigger] counts[q] == rel_ids(rels[q]@).len(),
        forall|q1: int, q2: int, x: u64| 0 <= q1 < rels.len() && 0 <= q2 < rels.len() && #[trigger] rel_ids(rels[q1]@).contains(x)
            && #[trigger] rel_ids(rels[q2]@).contains(x) ==> q1 == q2,
    ensures
        held_upto(rels, n).finite(),
        held_upto(rels, n).len() == sum_counts(counts, n),
    decreases n,
{
    if n == 0 {
        assert(held_upto(rels, 0) =~= Set::<u64>::empty());
    } else {
        lemma_sum_held(rels, counts, n - 1);
        let prev = held_upto(rels, n - 1);
        let cur = rel_ids(rels[n - 1]@);
        rels[n - 1].lemma_ids_bounded();
        assert(held_upto(rels, n) =~= prev + cur) by {
            assert forall|x: u64| held_upto(rels, n).contains(x) implies (prev + cur).contains(x) by {
                let q = choose|q: int| 0 <= q < n && #[trigger] rel_ids(rels[q]@).contains(x);
                if q < n - 1 {
                    assert(prev.contains(x));
                }
            }
            assert forall|x: u64| (prev + cur).contains(x) implies held_upto(rels, n).contains(x) by {
                if prev.contains(x) {
                    let q = choose|q: int| 0 <= q < n - 1 && #[trigger] rel_ids(rels[q]@).contains(x);
                    assert(rel_ids(rels[q]@).contains(x));
                } else {
                    assert(rel_ids(rels[n - 1]@).contains(x));
                }
            }
        }
        assert(prev.disjoint(cur)) by {
            assert forall|x: u64| prev.contains(x) implies !cur.contains(x) by {
                let q = choose|q: int| 0 <= q < n - 1 && #[trigger] rel_ids(rels[q]@).contains(x);
            }
        }
        vstd::set_lib::lemma_set_disjoint_lens(prev, cur);
    }
}

/// Ids of the first `t` edges of `s`.
pub open spec fn new_ids(s: Seq<Edge>, t: int) -> Set<u64> {
    Set::new(|x: u64| exists|i: int| 0 <= i < t && (#[trigger] s[i]).id == x)
}

/// Which ids must be held shrinks with the set of live slots.
pub proof fn lemma_live_held_pool(rels: Seq<Tensor>, p1: DataBlock, p2: DataBlock, s1: Set<u64>, s2: Set<u64>)
    requires
        live_held_except(rels, p1, s1),
        forall|x: u64| #[trigger] p2.live(x) && !s2.contains(x) ==> p1.live(x) && !s1.contains(x),
    ensures
        live_held_except(rels, p2, s2),
{
    assert forall|id: u64| #[trigger] p2.live(id) && !s2.contains(id) implies exists|q: int, key: (u64, u64)| rel_holds(rels, q, key, id) by {
        assert(p1.live(id) && !s1.contains(id));
    }
}

/// The agreement of relations, edge slots and counters depends on the
/// relations' cells alone.
pub proof fn lemma_edges_ok_views(r1: Seq<Tensor>, r2: Seq<Tensor>, pool: DataBlock, counts: Seq<u64>)
    requires
        edges_ok_of(r1, pool, counts),
        r1.len() == r2.len(),
        forall|q: int| 0 <= q < r1.len() ==> (#[trigger] r1[q])@ == r2[q]@,
    ensures
        edges_ok_of(r2, pool, counts),
{
    assert forall|q: int, key: (u64, u64), id: u64| #[trigger] rel_holds(r2, q, key, id) implies pool.live(id) by {
        assert(rel_holds(r1, q, key, id));
    }
    assert forall|q1: int, k1: (u64, u64), q2: int, k2: (u64, u64), id: u64|
        #[trigger] rel_holds(r2, q1, k1, id) && #[trigger] rel_holds(r2, q2, k2, id) implies q1 == q2 && k1 == k2 by {
        assert(rel_holds(r1, q1, k1, id) && rel_holds(r1, q2, k2, id));
    }
    assert forall|r: int| 0 <= r < r2.len() implies #[trigger] counts[r] == rel_ids(r2[r]@).len() by {
        assert(r1[r]@ == r2[r]@);
    }
}

/// One of the first `k` edges of `es` is edge `id` of relation `q` in cell `key`.
pub open spec fn listed(es: Seq<Edge>, k: int, q: int, key: (u64, u64), id: u64) -> bool {
    exists|t: int| 0 <= t < k && (#[trigger] es[t]).id == id && es[t].relation_id == q && edge_key(es[t]) == key
}

/// One of the first `k` edges of `es` has id `id`.
pub open spec fn listed_id(es: Seq<Edge>, k: int, id: u64) -> bool {
    exists|t: int| 0 <= t < k && (#[trigger] es[t]).id == id
}

/// One of the first `k` nodes of `ns` has id `id`.
pub open spec fn listed_node(ns: Seq<Node>, k: int, id: u64) -> bool {
    exists|t: int| 0 <= t < k && (#[trigger] ns[t]).id == id
}

/// The `(src, dest, id)` triple of an edge.
pub open spec fn edge_triple(e: Edge) -> (u64, u64, u64) {
    (e.src_id, e.dest_id, e.id)
}

/// Some edge of `s` from position `from` on is `id` of relation `q` in cell `key`.
pub open spec fn found_after(s: Seq<Edge>, from: int, q: int, t: (u64, u64, u64)) -> bool {
    exists|j: int| from <= j < s.len() && (#[trigger] s[j]).relation_id == q && edge_triple(s[j]) == t
}

/// Degree of node `n` in relation `q` of `g` in direction `dir`.
pub open spec fn degree_in(g: Graph, q: int, n: u64, dir: GraphEdgeDir) -> nat {
    (if dir != GraphEdgeDir::Incoming {
        triples_in(g.tensors()[q]@, false, n, n).len()
    } else {
        0
    }) + (if dir != GraphEdgeDir::Outgoing {
        triples_in(g.tensors()[q]@, true, n, n).len()
    } else {
        0
    })
}

/// Number of `(src, dest, edge)` triples in rows (columns when `tr`) `n`
/// over relations `lo..hi`.
pub open spec fn dir_sum(g: Graph, lo: int, hi: int, n: u64, tr: bool) -> nat
    decreases hi - lo,
{
    if hi <= lo {
        0
    } else {
        dir_sum(g, lo, hi - 1, n, tr) + triples_in(g.tensors()[hi - 1]@, tr, n, n).len()
    }
}

/// The degree over a range of relations is the outgoing count plus the incoming count.
pub proof fn lemma_degree_split(g: Graph, lo: int, hi: int, n: u64, dir: GraphEdgeDir)
    ensures
        degree_sum(g, lo, hi, n, dir) == (if dir != GraphEdgeDir::Incoming { dir_sum(g, lo, hi, n, false) } else { 0 })
            + (if dir != GraphEdgeDir::Outgoing { dir_sum(g, lo, hi, n, true) } else { 0 }),
    decreases hi - lo,
{
    if hi > lo {
        lemma_degree_split(g, lo, hi - 1, n, dir);
    }
}

/// Sum of `degree_in` over relations `lo..hi`.
pub open spec fn degree_sum(g: Graph, lo: int, hi: int, n: u64, dir: GraphEdgeDir) -> nat
    decreases hi - lo,
{
    if hi <= lo {
        0
    } else {
        degree_sum(g, lo, hi - 1, n, dir) + degree_in(g, hi - 1, n, dir)
    }
}

/// Adding fresh, distinct edge ids to relation `r` keeps relations, edge
/// slots and counters in agreement, the counter of `r` growing by their number.
pub proof fn lemma_add_fresh_edges(
    olds: Seq<Tensor>,
    rels: Seq<Tensor>,
    r: int,
    es: Seq<Edge>,
    pool: DataBlock,
    counts0: Seq<u64>,
    counts: Seq<u64>,
)
    requires
        edges_ok_of(olds, pool, counts0),
        0 <= r < olds.len(),
        olds[r].wf(),
        counts0.len() == olds.len(),
        rels.len() == olds.len(),
        forall|q: int| 0 <= q < olds.len() && q != r ==> (#[trigger] rels[q])@ == olds[q]@,
        rels[r]@ == crate::tensor::with_edges(olds[r]@, es),
        forall|t: int| 0 <= t < es.len() ==> pool.live((#[trigger] es[t]).id),
        forall|t: int, q: int, key: (u64, u64)| 0 <= t < es.len() ==> !#[trigger] rel_holds(olds, q, key, es[t].id),
        forall|x: int, y: int| 0 <= x < y < es.len() ==> (#[trigger] es[x]).id != (#[trigger] es[y]).id,
        counts.len() == counts0.len(),
        forall|q: int| 0 <= q < counts.len() && q != r ==> #[trigger] counts[q] == counts0[q],
        counts[r] == counts0[r] + es.len(),
    ensures
        edges_ok_of(rels, pool, counts),
{
    let newids = Set::new(|x: u64| exists|t: int| 0 <= t < es.len() && (#[trigger] es[t]).id == x);
    assert forall|q: int, k: (u64, u64), x: u64| #[trigger] rel_holds(rels, q, k, x) == (rel_holds(olds, q, k, x)
        || (q == r && exists|t: int| 0 <= t < es.len() && edge_key(#[trigger] es[t]) == k && es[t].id == x)) by {
        if q != r && 0 <= q < rels.len() {
            assert(rels[q]@ == olds[q]@);
        }
        if q == r {
            if exists|t: int| 0 <= t < es.len() && edge_key(#[trigger] es[t]) == k && es[t].id == x {
                let t = choose|t: int| 0 <= t < es.len() && edge_key(#[trigger] es[t]) == k && es[t].id == x;
                assert(crate::tensor::has_cell(es, k));
                assert(crate::tensor::ids_at(es, k).contains(x));
            }
            if rel_holds(rels, q, k, x) && !rel_holds(olds, q, k, x) {
                assert(crate::tensor::ids_at(es, k).contains(x));
            }
        }
    }
    assert forall|q: int, k: (u64, u64), x: u64| #[trigger] rel_holds(rels, q, k, x) implies pool.live(x) by {
        if !rel_holds(olds, q, k, x) {
            let t = choose|t: int| 0 <= t < es.len() && edge_key(#[trigger] es[t]) == k && es[t].id == x;
        }
    }
    assert forall|q1: int, k1: (u64, u64), q2: int, k2: (u64, u64), x: u64|
        #[trigger] rel_holds(rels, q1, k1, x) && #[trigger] rel_holds(rels, q2, k2, x) implies q1 == q2 && k1 == k2 by {
        let o1 = rel_holds(olds, q1, k1, x);
        let o2 = rel_holds(olds, q2, k2, x);
        if !o1 {
            let t1 = choose|t: int| 0 <= t < es.len() && edge_key(#[trigger] es[t]) == k1 && es[t].id == x;
            if o2 {
                assert(!rel_holds(olds, q2, k2, es[t1].id));
            } else {
                let t2 = choose|t: int| 0 <= t < es.len() && edge_key(#[trigger] es[t]) == k2 && es[t].id == x;
                if t1 < t2 {
                    assert(es[t1].id != es[t2].id);
                } else if t2 < t1 {
                    assert(es[t2].id != es[t1].id);
                }
            }
        } else if !o2 {
            let t2 = choose|t: int| 0 <= t < es.len() && edge_key(#[trigger] es[t]) == k2 && es[t].id == x;
            assert(!rel_holds(olds, q1, k1, es[t2].id));
        }
    }
    assert(rel_ids(rels[r]@) =~= rel_ids(olds[r]@) + newids) by {
        assert forall|x: u64| #[trigger] rel_ids(rels[r]@).contains(x) implies (rel_ids(olds[r]@) + newids).contains(x) by {
            let k = choose|k: (u64, u64)| #[trigger] rels[r]@.contains_key(k) && rels[r]@[k].contains(x);
            assert(rel_holds(rels, r, k, x));
            if rel_holds(olds, r, k, x) {
                assert(rel_ids(olds[r]@).contains(x));
            } else {
                let t = choose|t: int| 0 <= t < es.len() && edge_key(#[trigger] es[t]) == k && es[t].id == x;
                assert(newids.contains(x));
            }
        }
        assert forall|x: u64| (rel_ids(olds[r]@) + newids).contains(x) implies #[trigger] rel_ids(rels[r]@).contains(x) by {
            if rel_ids(olds[r]@).contains(x) {
                let k = choose|k: (u64, u64)| #[trigger] olds[r]@.contains_key(k) && olds[r]@[k].contains(x);
                assert(rel_holds(olds, r, k, x));
                assert(rel_holds(rels, r, k, x));
            } else {
                let t = choose|t: int| 0 <= t < es.len() && (#[trigger] es[t]).id == x;
                assert(rel_holds(rels, r, edge_key(es[t]), x));
            }
        }
    }
    let idseq = es.map_values(|e: Edge| e.id);
    assert(idseq.no_duplicates()) by {
        assert forall|x: int, y: int| 0 <= x < idseq.len() && 0 <= y < idseq.len() && x != y implies idseq[x] != idseq[y] by {
            if x < y {
                assert(es[x].id != es[y].id);
            } else {
                assert(es[y].id != es[x].id);
            }
        }
    }
    idseq.unique_seq_to_set();
    assert(idseq.to_set() =~= newids) by {
        assert forall|x: u64| idseq.to_set().contains(x) implies newids.contains(x) by {
            let t = choose|t: int| 0 <= t < idseq.len() && idseq[t] == x;
            assert(es[t].id == x);
        }
        assert forall|x: u64| newids.contains(x) implies idseq.to_set().contains(x) by {
            let t = choose|t: int| 0 <= t < es.len() && (#[trigger] es[t]).id == x;
            assert(idseq[t] == x);
        }
    }
    assert(rel_ids(olds[r]@).disjoint(newids)) by {
        assert forall|x: u64| rel_ids(olds[r]@).contains(x) implies !newids.contains(x) by {
            let k = choose|k: (u64, u64)| #[trigger] olds[r]@.contains_key(k) && olds[r]@[k].contains(x);
            assert(rel_holds(olds, r, k, x));
            if newids.contains(x) {
                let t = choose|t: int| 0 <= t < es.len() && (#[trigger] es[t]).id == x;
                assert(!rel_holds(olds, r, k, es[t].id));
            }
        }
    }
    olds[r].lemma_ids_bounded();
    vstd::set_lib::lemma_set_disjoint_lens(rel_ids(olds[r]@), newids);
    assert forall|q: int| 0 <= q < rels.len() implies #[trigger] counts[q] == rel_ids(rels[q]@).len() by {
        if q != r {
            assert(rels[q]@ == olds[q]@);
            assert(counts[q] == counts0[q]);
        }
    }
}

/// The property graph: node and edge pools, the adjacency matrix, a label
/// matrix per label, the node-label matrix and a tensor per relation.
pub struct Graph {
    reserved_node_count: u64,
    nodes: DataBlock,
    edges: DataBlock,
    adjacency_matrix: DeltaMatrix,
    labels: Vec<DeltaMatrix>,
    node_labels: DeltaMatrix,
    relations: Vec<Tensor>,
    zero_matrix: DeltaMatrix,
    matrix_policy: MatrixPolicy,
    stats: GraphStatistics,
}

impl Graph {
    /// Common dimension of the matrices: the node pool's capacity.
    pub closed spec fn dim(&self) -> u64 {
        self.nodes.capacity()
    }

    pub closed spec fn node_pool(&self) -> DataBlock {
        self.nodes
    }

    pub closed spec fn edge_pool(&self) -> DataBlock {
        self.edges
    }

    pub closed spec fn adjacency(&self) -> DeltaMatrix {
        self.adjacency_matrix
    }

    pub closed spec fn label_matrices(&self) -> Seq<DeltaMatrix> {
        self.labels@
    }

    pub closed spec fn node_label_matrix(&self) -> DeltaMatrix {
        self.node_labels
    }

    pub closed spec fn tensors(&self) -> Seq<Tensor> {
        self.relations@
    }

    pub closed spec fn label_counts(&self) -> Seq<u64> {
        self.stats.node_count@
    }

    pub closed spec fn edge_counts(&self) -> Seq<u64> {
        self.stats.edge_count@
    }

    pub closed spec fn policy(&self) -> MatrixPolicy {
        self.matrix_policy
    }

    pub closed spec fn reserved(&self) -> u64 {
        self.reserved_node_count
    }

    /// A square boolean matrix of the graph's dimension.
    pub open spec fn square(m: DeltaMatrix, d: u64, mirrored: bool) -> bool {
        &&& m.wf()
        &&& m.elem_type() == ElementType::Bool
        &&& m.rows() == d
        &&& m.cols() == d
        &&& (m.mirror() is Some <==> mirrored)
    }

    /// The label matrix `l` of `g` holds `(n, n)`.
    pub open spec fn has_label(g: &Graph, n: u64, l: int) -> bool {
        0 <= l < g.label_matrices().len() && g.label_matrices()[l]@.contains_key((n, n))
    }

    pub closed spec fn wf(&self) -> bool {
        &&& self.wf_core()
        &&& self.adj_ok()
        &&& live_held_except(self.relations@, self.edges, Set::empty())
    }

    /// `adjacency[s, d]` is set exactly when some relation has a cell at `(s, d)`.
    closed spec fn adj_ok(&self) -> bool {
        forall|k: (u64, u64)| #[trigger] self.adjacency_matrix@.contains_key(k) <==> some_relation_has(self.relations@, k)
    }

    /// Everything `wf` asks but the agreement of adjacency and relations.
    closed spec fn wf_core(&self) -> bool {
        &&& self.wf_base()
        &&& self.nl_ok()
    }

    /// The node-label matrix holds `(n, l)` exactly when label `l`'s matrix
    /// holds `(n, n)`.
    closed spec fn nl_ok(&self) -> bool {
        forall|k: (u64, u64)| #[trigger] self.node_labels@.contains_key(k) <==> (k.1 < self.labels@.len()
            && self.labels@[k.1 as int]@.contains_key((k.0, k.0)))
    }

    /// Well-formed but for the node-label matrix, which need not agree with
    /// the label matrices (as after labels were written directly).
    pub closed spec fn wf_but_node_labels(&self) -> bool {
        &&& self.wf_base()
        &&& self.adj_ok()
        &&& live_held_except(self.relations@, self.edges, Set::empty())
    }

    closed spec fn wf_base(&self) -> bool {
        let d = self.nodes.capacity();
        &&& self.nodes.wf()
        &&& self.edges.wf()
        &&& d < u64::MAX
        &&& Self::square(self.adjacency_matrix, d, true)
        &&& Self::square(self.zero_matrix, d, false)
        &&& self.zero_matrix@ == Map::<(u64, u64), u64>::empty()
        &&& self.node_labels.wf()
        &&& self.node_labels.elem_type() == ElementType::Bool
        &&& self.node_labels.mirror() is None
        &&& self.node_labels.rows() == d
        &&& self.node_labels.cols() >= self.labels@.len()
        &&& self.labels@.len() < 0x7fff_ffff
        &&& self.relations@.len() < 0x7fff_ffff
        &&& forall|l: int| 0 <= l < self.labels@.len() ==> Self::square(#[trigger] self.labels@[l], d, false)
        &&& forall|l: int, k: (u64, u64)|
            0 <= l < self.labels@.len() && #[trigger] self.labels@[l]@.contains_key(k) ==> k.0 == k.1
        &&& forall|r: int| 0 <= r < self.relations@.len() ==> (#[trigger] self.relations@[r]).wf()
            && self.relations@[r].rows() == d && self.relations@[r].cols() == d
        &&& self.stats.node_count@.len() == self.labels@.len()
        &&& self.stats.edge_count@.len() == self.relations@.len()
        &&& forall|l: int| 0 <= l < self.labels@.len() ==> #[trigger] self.stats.node_count@[l] == self.labels@[l]@.dom().len()
        &&& self.edges_ok()
    }

    /// Edge ids held by relations agree with the edge slots and counters.
    closed spec fn edges_ok(&self) -> bool {
        edges_ok_of(self.relations@, self.edges, self.stats.edge_count@)
    }
}

impl Graph {
    /// After slot `id` of the edge pool, not live before, is taken, the graph
    /// is well-formed again and no relation holds `id`.
    proof fn lemma_fresh_slot(&self, pool0: DataBlock, id: u64)
        requires
            self.edges.wf(),
            !pool0.live(id),
            self.edges.live(id),
            forall|x: u64| #[trigger] pool0.live(x) ==> self.edges.live(x),
            edges_ok_of(self.relations@, pool0, self.stats.edge_count@),
        ensures
            edges_ok_of(self.relations@, self.edges, self.stats.edge_count@),
            forall|q: int, key: (u64, u64)| !#[trigger] holds(*self, q, key, id),
    {
        assert forall|q: int, key: (u64, u64), x: u64| #[trigger] rel_holds(self.relations@, q, key, x) implies self.edges.live(x) by {
            assert(pool0.live(x));
        }
        assert forall|q: int, key: (u64, u64)| !#[trigger] holds(*self, q, key, id) by {
            if holds(*self, q, key, id) {
                assert(rel_holds(self.relations@, q, key, id));
            }
        }
    }

    /// Adjacency consistency: `adjacency[s, d]` is set exactly when some
    /// relation has a cell at `(s, d)`; the mirror holds the same, transposed.
    pub proof fn lemma_adjacency_consistent(&self, s: u64, d: u64)
        requires
            self.wf(),
        ensures
            self.adjacency()@.contains_key((s, d)) <==> some_relation_has(self.tensors(), (s, d)),
            self.adjacency().mirror().unwrap()@.contains_key((d, s)) <==> some_relation_has(self.tensors(), (s, d)),
    {
        self.adjacency_matrix.lemma_transpose_mirror(s, d);
    }

    /// Edge ids fit the edge pool's 64-bit capacity.
    pub proof fn edges_pool_len_lemma(&self)
        requires
            self.wf(),
        ensures
            self.edge_pool()@.len() <= u64::MAX,
    {
        self.edges.lemma_len();
    }

    /// Node ids fit the node pool's 64-bit capacity.
    pub proof fn lemma_pool_bound(&self)
        requires
            self.wf(),
        ensures
            self.node_pool()@.len() <= u64::MAX,
            self.edge_pool()@.len() <= u64::MAX,
    {
        self.nodes.lemma_len();
        self.edges.lemma_len();
    }

    /// Every edge id a relation holds is a live edge slot.
    pub proof fn lemma_held_live(&self)
        requires
            self.wf(),
        ensures
            forall|q: int, key: (u64, u64), id: u64| #[trigger] holds(*self, q, key, id) ==> self.edge_pool().live(id),
    {
        assert forall|q: int, key: (u64, u64), id: u64| #[trigger] holds(*self, q, key, id) implies self.edge_pool().live(id) by {
            assert(rel_holds(self.relations@, q, key, id));
        }
    }

    /// Every relation's tensor is well-formed.
    pub proof fn lemma_tensors_wf(&self)
        requires
            self.wf(),
        ensures
            forall|q: int| 0 <= q < self.tensors().len() ==> (#[trigger] self.tensors()[q]).wf(),
    {
    }

    /// A well-formed graph meets the weaker condition of `set_node_labels`.
    pub proof fn lemma_wf_but_node_labels(&self)
        requires
            self.wf(),
        ensures
            self.wf_but_node_labels(),
    {
    }

    /// The adjacency matrix is square, of the graph's dimension, with a mirror.
    pub proof fn lemma_adjacency_dims(&self)
        requires
            self.wf(),
        ensures
            self.adjacency().rows() == self.dim(),
            self.adjacency().cols() == self.dim(),
            self.adjacency().wf(),
            self.adjacency().mirror() is Some,
            self.adjacency().elem_type() == ElementType::Bool,
            self.adjacency().mirror().unwrap().elem_type() == ElementType::Bool,
    {
        self.adjacency_matrix.lemma_wf();
    }

    /// Label counters: the count of label `l` is the number of entries of its
    /// matrix, and a node has a label in the node-label matrix exactly when
    /// the label's matrix holds the node's diagonal entry.
    pub proof fn lemma_label_counters(&self, l: int, n: u64)
        requires
            self.wf(),
            0 <= l < self.label_matrices().len(),
        ensures
            self.label_counts()[l] == self.label_matrices()[l]@.dom().len(),
            self.node_label_matrix()@.contains_key((n, l as u64)) <==> self.label_matrices()[l]@.contains_key((n, n)),
    {
    }

    /// Edge counters: the counter of relation `r` is the number of edge ids
    /// its cells hold; every held id is a live edge slot, held by one cell
    /// of one relation only (so the counter is also the sum of the cells'
    /// sizes).
    pub proof fn lemma_edge_counters(&self, r: int)
        requires
            self.wf(),
            0 <= r < self.tensors().len(),
        ensures
            self.edge_counts()[r] == rel_ids(self.tensors()[r]@).len(),
            forall|q: int, key: (u64, u64), id: u64| #[trigger] holds(*self, q, key, id) ==> self.edge_pool().live(id),
            forall|q1: int, k1: (u64, u64), q2: int, k2: (u64, u64), id: u64|
                #[trigger] holds(*self, q1, k1, id) && #[trigger] holds(*self, q2, k2, id) ==> q1 == q2 && k1 == k2,
    {
        assert forall|q: int, key: (u64, u64), id: u64| #[trigger] holds(*self, q, key, id) implies self.edge_pool().live(id) by {
            assert(rel_holds(self.relations@, q, key, id));
        }
        assert forall|q1: int, k1: (u64, u64), q2: int, k2: (u64, u64), id: u64|
            #[trigger] holds(*self, q1, k1, id) && #[trigger] holds(*self, q2, k2, id) implies q1 == q2 && k1 == k2 by {
            assert(rel_holds(self.relations@, q1, k1, id) && rel_holds(self.relations@, q2, k2, id));
        }
    }

    /// Edge total: the relations' counters add up to the number of live edges.
    pub proof fn lemma_edge_total(&self)
        requires
            self.wf(),
        ensures
            sum_counts(self.edge_counts(), self.tensors().len() as int) == live_count(self.edge_pool()@),
    {
        let rels = self.relations@;
        let n = rels.len() as int;
        assert forall|q1: int, q2: int, x: u64| 0 <= q1 < rels.len() && 0 <= q2 < rels.len() && #[trigger] rel_ids(rels[q1]@).contains(x)
            && #[trigger] rel_ids(rels[q2]@).contains(x) implies q1 == q2 by {
            let k1 = choose|k: (u64, u64)| #[trigger] rels[q1]@.contains_key(k) && rels[q1]@[k].contains(x);
            let k2 = choose|k: (u64, u64)| #[trigger] rels[q2]@.contains_key(k) && rels[q2]@[k].contains(x);
            assert(rel_holds(rels, q1, k1, x) && rel_holds(rels, q2, k2, x));
        }
        lemma_sum_held(rels, self.stats.edge_count@, n);
        self.edges.lemma_len();
        lemma_live_set(self.edges@);
        assert(held_upto(rels, n) =~= live_set(self.edges@)) by {
            assert forall|x: u64| held_upto(rels, n).contains(x) implies live_set(self.edges@).contains(x) by {
                let q = choose|q: int| 0 <= q < n && #[trigger] rel_ids(rels[q]@).contains(x);
                let k = choose|k: (u64, u64)| #[trigger] rels[q]@.contains_key(k) && rels[q]@[k].contains(x);
                assert(rel_holds(rels, q, k, x));
            }
            assert forall|x: u64| live_set(self.edges@).contains(x) implies held_upto(rels, n).contains(x) by {
                assert(self.edges.live(x) && !Set::<u64>::empty().contains(x));
                let (q, k) = choose|q: int, k: (u64, u64)| rel_holds(rels, q, k, x);
                assert(rel_ids(rels[q]@).contains(x));
            }
        }
    }

    /// An empty graph whose matrices have dimension `node_cap`.
    pub fn new(node_cap: u64, edge_cap: u64) -> (r: Graph)
        requires
            node_cap < u64::MAX,
        ensures
            r.wf(),
            r.dim() == node_cap,
            r.node_pool()@ == Seq::<Option<u64>>::empty(),
            r.edge_pool()@ == Seq::<Option<u64>>::empty(),
            r.adjacency()@ == Map::<(u64, u64), u64>::empty(),
            r.adjacency().rows() == node_cap,
            r.adjacency().cols() == node_cap,
            r.label_matrices().len() == 0,
            r.tensors().len() == 0,
            r.reserved() == 0,
            r.policy() == MatrixPolicy::FlushResize,
    {
        let g = Graph {
            reserved_node_count: 0,
            nodes: DataBlock::new(node_cap),
            edges: DataBlock::new(edge_cap),
            adjacency_matrix: DeltaMatrix::new(ElementType::Bool, node_cap, node_cap, true),
            labels: Vec::new(),
            node_labels: DeltaMatrix::new(ElementType::Bool, node_cap, node_cap, false),
            relations: Vec::new(),
            zero_matrix: DeltaMatrix::new(ElementType::Bool, node_cap, node_cap, false),
            matrix_policy: MatrixPolicy::FlushResize,
            stats: GraphStatistics { node_count: Vec::new(), edge_count: Vec::new() },
        };
        g
    }

    pub fn get_matrix_policy(&self) -> (r: MatrixPolicy)
        ensures
            r == self.policy(),
    {
        self.matrix_policy
    }

    /// Installs `policy` and returns the one it replaces.
    pub fn set_matrix_policy(&mut self, policy: MatrixPolicy) -> (r: MatrixPolicy)
        requires
            old(self).wf(),
        ensures
            final(self).wf(),
            r == old(self).policy(),
            final(self).policy() == policy,
            Self::same_content(*final(self), *old(self)),
            final(self).tensors() == old(self).tensors(),
            final(self).label_matrices() == old(self).label_matrices(),
            final(self).node_label_matrix() == old(self).node_label_matrix(),
            final(self).node_pool() == old(self).node_pool(),
            final(self).edge_pool() == old(self).edge_pool(),
            final(self).adjacency() == old(self).adjacency(),
            final(self).reserved() == old(self).reserved(),
    {
        let old_policy = self.matrix_policy;
        self.matrix_policy = policy;
        old_policy
    }

    /// Everything but the policy and the reservation counter is equal.
    pub open spec fn same_content(a: Graph, b: Graph) -> bool {
        &&& a.dim() == b.dim()
        &&& a.node_pool()@ == b.node_pool()@
        &&& a.edge_pool()@ == b.edge_pool()@
        &&& a.adjacency()@ == b.adjacency()@
        &&& a.label_matrices().len() == b.label_matrices().len()
        &&& (forall|l: int| 0 <= l < a.label_matrices().len() ==> (#[trigger] a.label_matrices()[l])@ == b.label_matrices()[l]@)
        &&& a.node_label_matrix()@ == b.node_label_matrix()@
        &&& a.tensors().len() == b.tensors().len()
        &&& (forall|r: int| 0 <= r < a.tensors().len() ==> (#[trigger] a.tensors()[r])@ == b.tensors()[r]@)
        &&& a.label_counts() == b.label_counts()
        &&& a.edge_counts() == b.edge_counts()
    }

    /// The matrices' dimension: the node pool's capacity.
    pub fn required_matrix_dim(&self) -> (r: u64)
        ensures
            r == self.dim(),
    {
        self.nodes.item_cap()
    }

    /// Number of live nodes.
    pub fn node_count(&self) -> (r: u64)
        requires
            self.wf(),
        ensures
            r == live_count(self.node_pool()@),
    {
        self.nodes.item_count()
    }

    /// Number of node slots handed out, live or freed.
    pub fn uncompacted_node_count(&self) -> (r: u64)
        requires
            self.wf(),
        ensures
            r == self.node_pool()@.len(),
    {
        self.nodes.len()
    }

    /// Number of freed node ids.
    pub fn deleted_node_count(&self) -> (r: u64)
        ensures
            r == self.node_pool().freed().len(),
    {
        self.nodes.deleted_count()
    }

    /// Number of live edges.
    pub fn edge_count(&self) -> (r: u64)
        requires
            self.wf(),
        ensures
            r == live_count(self.edge_pool()@),
    {
        self.edges.item_count()
    }

    /// Number of freed edge ids.
    pub fn deleted_edge_count(&self) -> (r: u64)
        ensures
            r == self.edge_pool().freed().len(),
    {
        self.edges.deleted_count()
    }

    pub fn label_type_count(&self) -> (r: i32)
        requires
            self.wf(),
        ensures
            r == self.label_matrices().len(),
    {
        self.labels.len() as i32
    }

    pub fn relation_type_count(&self) -> (r: i32)
        requires
            self.wf(),
        ensures
            r == self.tensors().len(),
    {
        self.relations.len() as i32
    }

    /// Number of nodes with label `label` (0 for a negative id).
    pub fn labeled_node_count(&self, label: i32) -> (r: u64)
        requires
            self.wf(),
            label < self.label_matrices().len(),
        ensures
            label < 0 ==> r == 0,
            label >= 0 ==> r == self.label_matrices()[label as int]@.dom().len(),
    {
        if label < 0 {
            return 0;
        }
        self.stats.node_count[label as usize]
    }

    /// The number of edges of relation `relation_idx` (0 for a negative id).
    pub fn relation_edge_count(&self, relation_idx: i32) -> (r: u64)
        requires
            self.wf(),
            relation_idx < self.tensors().len(),
        ensures
            relation_idx < 0 ==> r == 0,
            relation_idx >= 0 ==> r == self.edge_counts()[relation_idx as int],
            relation_idx >= 0 ==> r == rel_ids(self.tensors()[relation_idx as int]@).len(),
    {
        if relation_idx < 0 {
            return 0;
        }
        self.stats.edge_count[relation_idx as usize]
    }

    /// Whether relation `r` has more edges than cells, i.e. a bundled cell.
    pub fn relationship_contains_multi_edge(&self, r: RelationID) -> (res: bool)
        requires
            self.wf(),
            0 <= r < self.tensors().len(),
        ensures
            res == (self.edge_counts()[r as int] != (if self.tensors()[r as int].matrix_spec()@.dom().len() <= u64::MAX {
                self.tensors()[r as int].matrix_spec()@.dom().len() as u64
            } else {
                u64::MAX
            })),
    {
        proof {
            self.relations@[r as int].lemma_matrix();
        }
        let a = self.relations[r as usize].matrix().nvals();
        let b = self.relation_edge_count(r);
        a != b
    }

    /// Appends an empty label matrix and returns its id.
    pub fn add_label(&mut self) -> (r: i32)
        requires
            old(self).wf(),
            old(self).label_matrices().len() + 1 < 0x7fff_ffff,
        ensures
            final(self).wf(),
            r == old(self).label_matrices().len(),
            final(self).label_matrices().len() == old(self).label_matrices().len() + 1,
            final(self).label_matrices()[r as int]@ == Map::<(u64, u64), u64>::empty(),
            forall|l: int| 0 <= l < old(self).label_matrices().len() ==> (#[trigger] final(self).label_matrices()[l])@
                == old(self).label_matrices()[l]@,
            final(self).tensors() == old(self).tensors(),
            final(self).node_pool() == old(self).node_pool(),
            final(self).edge_pool() == old(self).edge_pool(),
            final(self).adjacency() == old(self).adjacency(),
            final(self).node_label_matrix()@ == old(self).node_label_matrix()@,
            final(self).dim() == old(self).dim(),
            final(self).policy() == old(self).policy(),
            final(self).edge_counts() == old(self).edge_counts(),
    {
        let n = self.required_matrix_dim();
        let count = self.labels.len();
        if self.node_labels.ncols() <= count as u64 {
            proof {
                self.node_labels.lemma_wf();
            }
            let rows = self.node_labels.nrows();
            self.node_labels.resize(rows, count as u64 + 1);
            proof {
                assert(self.node_labels@ =~= old(self).node_labels@);
            }
        }
        self.labels.push(DeltaMatrix::new(ElementType::Bool, n, n, false));
        self.stats.introduce_label();
        proof {
            assert forall|l: int| 0 <= l < self.labels@.len() implies Self::square(#[trigger] self.labels@[l], n, false) by {
                if l < count {
                    assert(self.labels@[l] == old(self).labels@[l]);
                }
            }
            assert forall|l: int, k: (u64, u64)|
                0 <= l < self.labels@.len() && #[trigger] self.labels@[l]@.contains_key(k) implies k.0 == k.1 by {
                assert(self.labels@[l] == old(self).labels@[l]);
            }
            assert forall|l: int| 0 <= l < self.labels@.len() implies #[trigger] self.stats.node_count@[l] == self.labels@[l]@.dom().len() by {
                if l == count {
                    assert(self.labels@[l]@.dom() =~= Set::<(u64, u64)>::empty());
                } else {
                    assert(self.labels@[l] == old(self).labels@[l]);
                }
            }
            assert forall|k: (u64, u64)| #[trigger] self.node_labels@.contains_key(k) <==> (k.1 < self.labels@.len()
                && self.labels@[k.1 as int]@.contains_key((k.0, k.0))) by {
                if k.1 < count {
                    assert(self.labels@[k.1 as int] == old(self).labels@[k.1 as int]);
                }
            }
        }
        count as i32
    }

    /// Drops the last label, whose matrix must be empty.
    pub fn remove_label(&mut self, label_id: LabelID)
        requires
            old(self).wf(),
            0 <= label_id,
            label_id == old(self).label_matrices().len() - 1,
            old(self).label_matrices()[label_id as int]@ == Map::<(u64, u64), u64>::empty(),
        ensures
            final(self).wf(),
            final(self).label_matrices() == old(self).label_matrices().drop_last(),
            final(self).tensors() == old(self).tensors(),
            final(self).node_pool() == old(self).node_pool(),
            final(self).edge_pool() == old(self).edge_pool(),
            final(self).adjacency() == old(self).adjacency(),
            final(self).node_label_matrix() == old(self).node_label_matrix(),
            final(self).dim() == old(self).dim(),
            final(self).edge_counts() == old(self).edge_counts(),
    {
        self.labels.pop();
        self.stats.node_count.pop();
        proof {
            assert(self.labels@ =~= old(self).labels@.drop_last());
            assert forall|l: int| 0 <= l < self.labels@.len() implies #[trigger] self.stats.node_count@[l] == self.labels@[l]@.dom().len() by {
                assert(self.labels@[l] == old(self).labels@[l]);
                assert(self.stats.node_count@[l] == old(self).stats.node_count@[l]);
            }
            assert forall|k: (u64, u64)| #[trigger] self.node_labels@.contains_key(k) <==> (k.1 < self.labels@.len()
                && self.labels@[k.1 as int]@.contains_key((k.0, k.0))) by {
                if k.1 < self.labels@.len() {
                    assert(self.labels@[k.1 as int] == old(self).labels@[k.1 as int]);
                }
            }
        }
    }

    /// Appends an empty relation tensor and returns its id.
    pub fn add_relation_type(&mut self) -> (r: RelationID)
        requires
            old(self).wf(),
            old(self).tensors().len() + 1 < 0x7fff_ffff,
        ensures
            final(self).wf(),
            r == old(self).tensors().len(),
            final(self).tensors().len() == old(self).tensors().len() + 1,
            final(self).tensors()[r as int]@ == Map::<(u64, u64), Set<u64>>::empty(),
            final(self).tensors()[r as int].slots() == 0,
            forall|q: int| 0 <= q < old(self).tensors().len() ==> #[trigger] final(self).tensors()[q]
                == old(self).tensors()[q],
            final(self).label_matrices() == old(self).label_matrices(),
            final(self).node_pool() == old(self).node_pool(),
            final(self).edge_pool() == old(self).edge_pool(),
            final(self).adjacency() == old(self).adjacency(),
            final(self).node_label_matrix() == old(self).node_label_matrix(),
            final(self).dim() == old(self).dim(),
            final(self).label_counts() == old(self).label_counts(),
    {
        let n = self.required_matrix_dim();
        let count = self.relations.len();
        self.relations.push(Tensor::new(n, n));
        self.stats.introduce_relationship();
        proof {
            let rels = self.relations@;
            assert(rel_ids(rels[count as int]@) =~= Set::<u64>::empty());
            assert forall|q: int, key: (u64, u64), id: u64| #[trigger] rel_holds(rels, q, key, id) implies rel_holds(old(self).relations@, q, key, id) by {
                if q == count {
                    assert(!rels[q]@.contains_key(key));
                }
            }
            assert forall|q: int| 0 <= q < rels.len() implies #[trigger] self.stats.edge_count@[q] == rel_ids(rels[q]@).len() by {
                if q < count {
                    assert(rels[q] == old(self).relations@[q]);
                }
            }
            assert forall|q1: int, k1: (u64, u64), q2: int, k2: (u64, u64), id: u64|
                #[trigger] rel_holds(rels, q1, k1, id) && #[trigger] rel_holds(rels, q2, k2, id) implies q1 == q2 && k1 == k2 by {
                assert(rel_holds(old(self).relations@, q1, k1, id) && rel_holds(old(self).relations@, q2, k2, id));
            }
            assert forall|id: u64| #[trigger] self.edges.live(id) && !Set::<u64>::empty().contains(id) implies exists|q: int, key: (u64, u64)| rel_holds(rels, q, key, id) by {
                let (q, key) = choose|q: int, key: (u64, u64)| rel_holds(old(self).relations@, q, key, id);
                if q < rels.len() {
                    assert(rels[q] == old(self).relations@[q]);
                    assert(rel_holds(rels, q, key, id));
                } else {
                    assert(!old(self).relations@[q]@.contains_key(key));
                }
            }
            assert forall|r: int| 0 <= r < self.relations@.len() implies (#[trigger] self.relations@[r]).wf()
                && self.relations@[r].rows() == n && self.relations@[r].cols() == n by {
                if r < count {
                    assert(self.relations@[r] == old(self).relations@[r]);
                }
            }
            assert forall|k: (u64, u64)| #[trigger] self.adjacency_matrix@.contains_key(k) <==> some_relation_has(self.relations@, k) by {
                if some_relation_has(self.relations@, k) {
                    let r = choose|r: int| 0 <= r < self.relations@.len() && (#[trigger] self.relations@[r])@.contains_key(k);
                    assert(r < count);
                    assert(self.relations@[r] == old(self).relations@[r]);
                }
                if some_relation_has(old(self).relations@, k) {
                    let r = choose|r: int| 0 <= r < old(self).relations@.len() && (#[trigger] old(self).relations@[r])@.contains_key(k);
                    assert(self.relations@[r] == old(self).relations@[r]);
                }
            }
        }
        count as i32
    }

    /// Drops the last relation, whose tensor must be empty.
    pub fn remove_relation(&mut self, relation_id: RelationID)
        requires
            old(self).wf(),
            0 <= relation_id,
            relation_id == old(self).tensors().len() - 1,
            old(self).tensors()[relation_id as int]@ == Map::<(u64, u64), Set<u64>>::empty(),
        ensures
            final(self).wf(),
            final(self).tensors() == old(self).tensors().drop_last(),
            final(self).label_matrices() == old(self).label_matrices(),
            final(self).node_pool() == old(self).node_pool(),
            final(self).edge_pool() == old(self).edge_pool(),
            final(self).adjacency() == old(self).adjacency(),
            final(self).node_label_matrix() == old(self).node_label_matrix(),
            final(self).dim() == old(self).dim(),
            final(self).label_counts() == old(self).label_counts(),
    {
        self.relations.pop();
        self.stats.edge_count.pop();
        proof {
            let rels = self.relations@;
            assert forall|q: int, key: (u64, u64), id: u64| #[trigger] rel_holds(rels, q, key, id) implies rel_holds(old(self).relations@, q, key, id) by {
                assert(rels[q] == old(self).relations@[q]);
            }
            assert forall|q: int| 0 <= q < rels.len() implies #[trigger] self.stats.edge_count@[q] == rel_ids(rels[q]@).len() by {
                assert(rels[q] == old(self).relations@[q]);
                assert(self.stats.edge_count@[q] == old(self).stats.edge_count@[q]);
            }
            assert forall|q1: int, k1: (u64, u64), q2: int, k2: (u64, u64), id: u64|
                #[trigger] rel_holds(rels, q1, k1, id) && #[trigger] rel_holds(rels, q2, k2, id) implies q1 == q2 && k1 == k2 by {
                assert(rel_holds(old(self).relations@, q1, k1, id) && rel_holds(old(self).relations@, q2, k2, id));
            }
            assert forall|id: u64| #[trigger] self.edges.live(id) && !Set::<u64>::empty().contains(id) implies exists|q: int, key: (u64, u64)| rel_holds(rels, q, key, id) by {
                let (q, key) = choose|q: int, key: (u64, u64)| rel_holds(old(self).relations@, q, key, id);
                if q < rels.len() {
                    assert(rels[q] == old(self).relations@[q]);
                    assert(rel_holds(rels, q, key, id));
                } else {
                    assert(!old(self).relations@[q]@.contains_key(key));
                }
            }
            assert(self.relations@ =~= old(self).relations@.drop_last());
            assert forall|r: int| 0 <= r < self.relations@.len() implies (#[trigger] self.relations@[r]).wf()
                && self.relations@[r].rows() == self.dim() && self.relations@[r].cols() == self.dim() by {
                assert(self.relations@[r] == old(self).relations@[r]);
            }
            assert forall|k: (u64, u64)| #[trigger] self.adjacency_matrix@.contains_key(k) <==> some_relation_has(self.relations@, k) by {
                if some_relation_has(self.relations@, k) {
                    let r = choose|r: int| 0 <= r < self.relations@.len() && (#[trigger] self.relations@[r])@.contains_key(k);
                    assert(self.relations@[r] == old(self).relations@[r]);
                }
                if some_relation_has(old(self).relations@, k) {
                    let r = choose|r: int| 0 <= r < old(self).relations@.len() && (#[trigger] old(self).relations@[r])@.contains_key(k);
                    if r < self.relations@.len() {
                        assert(self.relations@[r] == old(self).relations@[r]);
                    }
                }
            }
        }
    }

    /// Resets the count of reserved node ids.
    pub fn reset_reserved_node(&mut self)
        requires
            old(self).wf(),
        ensures
            final(self).wf(),
            final(self).reserved() == 0,
            Self::same_content(*final(self), *old(self)),
            final(self).policy() == old(self).policy(),
            final(self).tensors() == old(self).tensors(),
            final(self).node_pool() == old(self).node_pool(),
            final(self).edge_pool() == old(self).edge_pool(),
            final(self).label_matrices() == old(self).label_matrices(),
            final(self).adjacency() == old(self).adjacency(),
            final(self).dim() == old(self).dim(),
    {
        self.reserved_node_count = 0;
    }

    /// A node carrying the next id that node creation will hand out, past
    /// those already reserved; no slot is taken.
    pub fn reserve_node(&mut self) -> (r: Node)
        requires
            old(self).wf(),
            old(self).node_pool()@.len() + old(self).reserved() + 1 < u64::MAX,
        ensures
            final(self).wf(),
            final(self).reserved() == old(self).reserved() + 1,
            r.attributes == 0,
            old(self).reserved() < old(self).node_pool().freed().len() ==> r.id == old(self).node_pool().freed()[old(self).node_pool().freed().len() - 1 - old(self).reserved()],
            old(self).reserved() >= old(self).node_pool().freed().len() ==> r.id == old(self).node_pool()@.len() + (old(self).reserved() - old(self).node_pool().freed().len()),
            Self::same_content(*final(self), *old(self)),
            final(self).policy() == old(self).policy(),
    {
        let id = self.nodes.reserved_idx(self.reserved_node_count);
        self.reserved_node_count = self.reserved_node_count + 1;
        Node { id, attributes: 0 }
    }

    /// The node `id`, if its slot is live.
    pub fn get_node(&self, id: NodeID) -> (r: Option<Node>)
        ensures
            r is Some <==> self.node_pool().live(id),
            r is Some ==> r.unwrap().id == id && Some(r.unwrap().attributes) == self.node_pool()@[id as int],
    {
        match self.nodes.get_item(id) {
            Some(set) => Some(Node { id, attributes: set }),
            None => None,
        }
    }

    /// Fills `e` with the id and attribute handle of edge `id`; false if it is not live.
    pub fn get_edge(&self, id: EdgeID, e: &mut Edge) -> (r: bool)
        ensures
            r == self.edge_pool().live(id),
            final(e).id == id,
            final(e).src_id == old(e).src_id,
            final(e).dest_id == old(e).dest_id,
            final(e).relation_id == old(e).relation_id,
            r ==> Some(final(e).attributes) == self.edge_pool()@[id as int],
            !r ==> final(e).attributes == 0,
    {
        e.id = id;
        match self.edges.get_item(id) {
            Some(set) => {
                e.attributes = set;
                true
            },
            None => {
                e.attributes = 0;
                false
            },
        }
    }
}

impl Graph {
    /// Gives node `id` each label of `lbls`, here and in the node-label matrix.
    pub fn label_node(&mut self, id: NodeID, lbls: &[LabelID])
        requires
            old(self).wf(),
            id < old(self).dim(),
            forall|t: int| 0 <= t < lbls@.len() ==> 0 <= #[trigger] lbls@[t] < old(self).label_matrices().len(),
        ensures
            final(self).wf(),
            final(self).label_matrices().len() == old(self).label_matrices().len(),
            forall|l: int, k: (u64, u64)| 0 <= l < final(self).label_matrices().len() ==> (#[trigger] final(self).label_matrices()[l]@.contains_key(k)
                <==> (old(self).label_matrices()[l]@.contains_key(k) || (k == (id, id) && lbls@.contains(l as i32)))),
            final(self).tensors() == old(self).tensors(),
            final(self).node_pool() == old(self).node_pool(),
            final(self).edge_pool() == old(self).edge_pool(),
            final(self).adjacency() == old(self).adjacency(),
            final(self).dim() == old(self).dim(),
            final(self).edge_counts() == old(self).edge_counts(),
            final(self).policy() == old(self).policy(),
            final(self).reserved() == old(self).reserved(),
    {
        let mut k: usize = 0;
        while k < lbls.len()
            invariant
                self.wf(),
                k <= lbls@.len(),
                id < self.dim(),
                forall|t: int| 0 <= t < lbls@.len() ==> 0 <= #[trigger] lbls@[t] < old(self).label_matrices().len(),
                self.label_matrices().len() == old(self).label_matrices().len(),
                forall|l: int, c: (u64, u64)| 0 <= l < self.label_matrices().len() ==> (#[trigger] self.label_matrices()[l]@.contains_key(c)
                    <==> (old(self).label_matrices()[l]@.contains_key(c) || (c == (id, id) && lbls@.take(k as int).contains(l as i32)))),
                self.tensors() == old(self).tensors(),
                self.node_pool() == old(self).node_pool(),
                self.edge_pool() == old(self).edge_pool(),
                self.adjacency() == old(self).adjacency(),
                self.dim() == old(self).dim(),
                self.edge_counts() == old(self).edge_counts(),
                self.policy() == old(self).policy(),
                self.reserved() == old(self).reserved(),
            decreases lbls@.len() - k,
        {
            let l = lbls[k];
            let ghost prev = *self;
            self.label_one(id, l);
            proof {
                assert forall|q: int, c: (u64, u64)| 0 <= q < self.label_matrices().len() implies (#[trigger] self.label_matrices()[q]@.contains_key(c)
                    <==> (old(self).label_matrices()[q]@.contains_key(c) || (c == (id, id) && lbls@.take(k + 1).contains(q as i32)))) by {
                    let a = lbls@.take(k as int);
                    let b = lbls@.take(k + 1);
                    assert(b == a.push(l));
                    assert(b.contains(q as i32) == (a.contains(q as i32) || q == l as int)) by {
                        if b.contains(q as i32) && q != l {
                            let t = choose|t: int| 0 <= t < b.len() && #[trigger] b[t] == q as i32;
                            assert(a[t] == q as i32);
                        }
                        if a.contains(q as i32) {
                            let t = choose|t: int| 0 <= t < a.len() && #[trigger] a[t] == q as i32;
                            assert(b[t] == q as i32);
                        }
                        if q == l {
                            assert(b[k as int] == l);
                        }
                    }
                }
            }
            k = k + 1;
        }
        proof {
            assert(lbls@.take(lbls@.len() as int) == lbls@);
        }
    }

    /// Gives node `id` the label `l`.
    fn label_one(&mut self, id: NodeID, l: LabelID)
        requires
            old(self).wf(),
            id < old(self).dim(),
            0 <= l < old(self).label_matrices().len(),
        ensures
            final(self).wf(),
            final(self).label_matrices().len() == old(self).label_matrices().len(),
            final(self).label_matrices()[l as int]@ == old(self).label_matrices()[l as int]@.insert((id, id), 1),
            forall|q: int| 0 <= q < final(self).label_matrices().len() && q != l ==> (#[trigger] final(self).label_matrices()[q]) == old(self).label_matrices()[q],
            final(self).tensors() == old(self).tensors(),
            final(self).node_pool() == old(self).node_pool(),
            final(self).edge_pool() == old(self).edge_pool(),
            final(self).adjacency() == old(self).adjacency(),
            final(self).dim() == old(self).dim(),
            final(self).edge_counts() == old(self).edge_counts(),
            final(self).policy() == old(self).policy(),
            final(self).reserved() == old(self).reserved(),
    {
        let li = l as usize;
        proof {
            assert(Self::square(self.labels@[li as int], self.dim(), false));
            self.labels@[li as int].lemma_wf();
            self.node_labels.lemma_wf();
        }
        let had = self.labels[li].extract_element_bool(id, id).is_some();
        self.node_labels.set_element_bool(id, l as u64);
        self.labels[li].set_element_bool(id, id);
        proof {
            let d = self.dim();
            self.labels@[li as int].lemma_wf();
            lemma_diag_bound(self.labels@[li as int]@.dom(), d);
            if !had {
                assert(self.labels@[li as int]@.dom() =~= old(self).labels@[li as int]@.dom().insert((id, id)));
            } else {
                assert(self.labels@[li as int]@.dom() =~= old(self).labels@[li as int]@.dom());
            }
        }
        if !had {
            self.stats.increment_node_count(l, 1);
        }
        proof {
            assert forall|q: int| 0 <= q < self.labels@.len() implies Self::square(#[trigger] self.labels@[q], self.dim(), false) by {
                if q != li {
                    assert(self.labels@[q] == old(self).labels@[q]);
                }
            }
            assert forall|q: int, c: (u64, u64)|
                0 <= q < self.labels@.len() && #[trigger] self.labels@[q]@.contains_key(c) implies c.0 == c.1 by {
                if q != li {
                    assert(self.labels@[q] == old(self).labels@[q]);
                }
            }
            assert forall|q: int| 0 <= q < self.labels@.len() implies #[trigger] self.stats.node_count@[q] == self.labels@[q]@.dom().len() by {
                if q != li {
                    assert(self.labels@[q] == old(self).labels@[q]);
                }
            }
            assert forall|c: (u64, u64)| #[trigger] self.node_labels@.contains_key(c) <==> (c.1 < self.labels@.len()
                && self.labels@[c.1 as int]@.contains_key((c.0, c.0))) by {
                if c.1 < self.labels@.len() && c.1 != li {
                    assert(self.labels@[c.1 as int] == old(self).labels@[c.1 as int]);
                }
            }
        }
    }
}

impl Graph {
    /// Takes the labels of `lbls` off node `id`.
    pub fn remove_node_labels(&mut self, id: NodeID, lbls: &[LabelID])
        requires
            old(self).wf(),
            id < old(self).dim(),
            forall|t: int| 0 <= t < lbls@.len() ==> 0 <= #[trigger] lbls@[t] < old(self).label_matrices().len(),
        ensures
            final(self).wf(),
            final(self).label_matrices().len() == old(self).label_matrices().len(),
            forall|l: int, k: (u64, u64)| 0 <= l < final(self).label_matrices().len() ==> (#[trigger] final(self).label_matrices()[l]@.contains_key(k)
                <==> (old(self).label_matrices()[l]@.contains_key(k) && !(k == (id, id) && lbls@.contains(l as i32)))),
            final(self).tensors() == old(self).tensors(),
            final(self).node_pool() == old(self).node_pool(),
            final(self).edge_pool() == old(self).edge_pool(),
            final(self).adjacency() == old(self).adjacency(),
            final(self).dim() == old(self).dim(),
            final(self).edge_counts() == old(self).edge_counts(),
            final(self).policy() == old(self).policy(),
            final(self).reserved() == old(self).reserved(),
    {
        let mut k: usize = 0;
        while k < lbls.len()
            invariant
                self.wf(),
                k <= lbls@.len(),
                id < self.dim(),
                forall|t: int| 0 <= t < lbls@.len() ==> 0 <= #[trigger] lbls@[t] < old(self).label_matrices().len(),
                self.label_matrices().len() == old(self).label_matrices().len(),
                forall|l: int, c: (u64, u64)| 0 <= l < self.label_matrices().len() ==> (#[trigger] self.label_matrices()[l]@.contains_key(c)
                    <==> (old(self).label_matrices()[l]@.contains_key(c) && !(c == (id, id) && lbls@.take(k as int).contains(l as i32)))),
                self.tensors() == old(self).tensors(),
                self.node_pool() == old(self).node_pool(),
                self.edge_pool() == old(self).edge_pool(),
                self.adjacency() == old(self).adjacency(),
                self.dim() == old(self).dim(),
                self.edge_counts() == old(self).edge_counts(),
                self.policy() == old(self).policy(),
                self.reserved() == old(self).reserved(),
            decreases lbls@.len() - k,
        {
            let l = lbls[k];
            self.unlabel_one(id, l);
            proof {
                assert forall|q: int, c: (u64, u64)| 0 <= q < self.label_matrices().len() implies (#[trigger] self.label_matrices()[q]@.contains_key(c)
                    <==> (old(self).label_matrices()[q]@.contains_key(c) && !(c == (id, id) && lbls@.take(k + 1).contains(q as i32)))) by {
                    let a = lbls@.take(k as int);
                    let b = lbls@.take(k + 1);
                    assert(b == a.push(l));
                    assert(b.contains(q as i32) == (a.contains(q as i32) || q == l as int)) by {
                        if b.contains(q as i32) && q != l {
                            let t = choose|t: int| 0 <= t < b.len() && #[trigger] b[t] == q as i32;
                            assert(a[t] == q as i32);
                        }
                        if a.contains(q as i32) {
                            let t = choose|t: int| 0 <= t < a.len() && #[trigger] a[t] == q as i32;
                            assert(b[t] == q as i32);
                        }
                        if q == l {
                            assert(b[k as int] == l);
                        }
                    }
                }
            }
            k = k + 1;
        }
        proof {
            assert(lbls@.take(lbls@.len() as int) == lbls@);
        }
    }

    /// Takes the label `l` off node `id`.
    fn unlabel_one(&mut self, id: NodeID, l: LabelID)
        requires
            old(self).wf(),
            id < old(self).dim(),
            0 <= l < old(self).label_matrices().len(),
        ensures
            final(self).wf(),
            final(self).label_matrices().len() == old(self).label_matrices().len(),
            final(self).label_matrices()[l as int]@ == old(self).label_matrices()[l as int]@.remove((id, id)),
            forall|q: int| 0 <= q < final(self).label_matrices().len() && q != l ==> (#[trigger] final(self).label_matrices()[q]) == old(self).label_matrices()[q],
            final(self).tensors() == old(self).tensors(),
            final(self).node_pool() == old(self).node_pool(),
            final(self).edge_pool() == old(self).edge_pool(),
            final(self).adjacency() == old(self).adjacency(),
            final(self).dim() == old(self).dim(),
            final(self).edge_counts() == old(self).edge_counts(),
            final(self).policy() == old(self).policy(),
            final(self).reserved() == old(self).reserved(),
    {
        let li = l as usize;
        proof {
            assert(Self::square(self.labels@[li as int], self.dim(), false));
            self.labels@[li as int].lemma_wf();
            self.node_labels.lemma_wf();
        }
        let had = self.labels[li].extract_element_bool(id, id).is_some();
        self.node_labels.remove_element(id, l as u64);
        self.labels[li].remove_element(id, id);
        proof {
            self.labels@[li as int].lemma_wf();
            if had {
                assert(old(self).labels@[li as int]@.dom() =~= self.labels@[li as int]@.dom().insert((id, id)));
            } else {
                assert(self.labels@[li as int]@.dom() =~= old(self).labels@[li as int]@.dom());
            }
        }
        if had {
            self.stats.decrement_node_count(l, 1);
        }
        proof {
            assert forall|q: int| 0 <= q < self.labels@.len() implies Self::square(#[trigger] self.labels@[q], self.dim(), false) by {
                if q != li {
                    assert(self.labels@[q] == old(self).labels@[q]);
                }
            }
            assert forall|q: int, c: (u64, u64)|
                0 <= q < self.labels@.len() && #[trigger] self.labels@[q]@.contains_key(c) implies c.0 == c.1 by {
                if q != li {
                    assert(self.labels@[q] == old(self).labels@[q]);
                }
            }
            assert forall|q: int| 0 <= q < self.labels@.len() implies #[trigger] self.stats.node_count@[q] == self.labels@[q]@.dom().len() by {
                if q != li {
                    assert(self.labels@[q] == old(self).labels@[q]);
                }
            }
            assert forall|c: (u64, u64)| #[trigger] self.node_labels@.contains_key(c) <==> (c.1 < self.labels@.len()
                && self.labels@[c.1 as int]@.contains_key((c.0, c.0))) by {
                if c.1 < self.labels@.len() && c.1 != li {
                    assert(self.labels@[c.1 as int] == old(self).labels@[c.1 as int]);
                }
            }
        }
    }

    /// Whether node `id` has label `l`.
    pub fn is_node_labeled(&self, id: NodeID, l: LabelID) -> (r: bool)
        requires
            self.wf(),
            l >= 0,
        ensures
            r == Self::has_label(self, id, l as int),
    {
        proof {
            self.node_labels.lemma_wf();
        }
        self.node_labels.extract_element_bool(id, l as u64).is_some()
    }

    /// The labels of node `n`, by increasing id.
    pub fn get_node_labels(&self, n: &Node) -> (r: Vec<LabelID>)
        requires
            self.wf(),
        ensures
            forall|l: LabelID| #[trigger] r@.contains(l) <==> (l >= 0 && Self::has_label(self, n.id, l as int)),
    {
        proof {
            self.node_labels.lemma_wf();
        }
        let mut it = DeltaMatrixIter::new_range(&self.node_labels, n.id, n.id);
        let ghost items = it.remaining();
        proof {
            assert forall|t: int| 0 <= t < items.len() implies (#[trigger] items[t]).col < self.labels@.len() by {
                lemma_map_at(items, t);
                assert(self.node_labels@.contains_key(crate::sparse_matrix::ekey(items[t])));
            }
        }
        let mut out: Vec<LabelID> = Vec::new();
        let mut more = true;
        let ghost taken: int = 0;
        while more
            invariant
                self.wf(),
                it.wf(),
                it.attached(),
                0 <= taken <= items.len(),
                it.remaining() == items.skip(taken),
                !more ==> taken == items.len(),
                crate::sparse_matrix::sorted(items),
                crate::sparse_matrix::seq_map(items) == crate::delta_matrix_iter::rows_of(self.node_labels@, n.id, n.id),
                forall|l: LabelID| #[trigger] out@.contains(l) <==> exists|t: int| 0 <= t < taken && items[t].col == l && l >= 0,
                forall|t: int| 0 <= t < items.len() ==> (#[trigger] items[t]).col < self.labels@.len(),
            decreases items.len() - taken + (if more { 1int } else { 0int }),
        {
            match it.next_bool() {
                Ok(Some((_, j))) => {
                    proof {
                        assert(items.skip(taken)[0] == items[taken]);
                    }
                    let ghost before = out@;
                    out.push(j as LabelID);
                    proof {
                        assert(items.skip(taken).drop_first() =~= items.skip(taken + 1));
                        assert forall|l: LabelID| #[trigger] out@.contains(l) <==> exists|t: int| 0 <= t < taken + 1 && items[t].col == l && l >= 0 by {
                            if out@.contains(l) {
                                let q = choose|q: int| 0 <= q < out@.len() && out@[q] == l;
                                if q < before.len() {
                                    assert(before.contains(l));
                                } else {
                                    assert(items[taken].col == l);
                                }
                            }
                            if exists|t: int| 0 <= t < taken + 1 && items[t].col == l && l >= 0 {
                                let t = choose|t: int| 0 <= t < taken + 1 && items[t].col == l && l >= 0;
                                if t < taken {
                                    assert(before.contains(l));
                                    let q = choose|q: int| 0 <= q < before.len() && before[q] == l;
                                    assert(out@[q] == l);
                                } else {
                                    assert(out@[before.len() as int] == l);
                                }
                            }
                        }
                        taken = taken + 1;
                    }
                },
                _ => {
                    more = false;
                },
            }
        }
        proof {
            assert forall|l: LabelID| #[trigger] out@.contains(l) <==> (l >= 0 && Self::has_label(self, n.id, l as int)) by {
                if l >= 0 && Self::has_label(self, n.id, l as int) {
                    assert(self.node_labels@.contains_key((n.id, l as u64)));
                    let key = (n.id, l as u64);
                    assert(crate::sparse_matrix::seq_map(items).contains_key(key));
                    let t = choose|t: int| 0 <= t < items.len() && crate::sparse_matrix::ekey(#[trigger] items[t]) == key;
                }
                if out@.contains(l) {
                    let t = choose|t: int| 0 <= t < taken && items[t].col == l && l >= 0;
                    lemma_map_at(items, t);
                }
            }
        }
        out
    }
}

impl Graph {
    /// Grows the node pool's capacity to at least `cap` and every matrix with it.
    pub fn ensure_node_cap(&mut self, cap: u64)
        requires
            old(self).wf(),
            cap < u64::MAX,
        ensures
            final(self).wf(),
            final(self).dim() == if cap > old(self).dim() {
                cap
            } else {
                old(self).dim()
            },
            final(self).node_pool()@ == old(self).node_pool()@,
            final(self).node_pool().freed() == old(self).node_pool().freed(),
            final(self).node_pool().next_id() == old(self).node_pool().next_id(),
            final(self).edge_pool() == old(self).edge_pool(),
            final(self).adjacency()@ == old(self).adjacency()@,
            final(self).label_matrices().len() == old(self).label_matrices().len(),
            forall|l: int| 0 <= l < final(self).label_matrices().len() ==> (#[trigger] final(self).label_matrices()[l])@ == old(self).label_matrices()[l]@,
            final(self).node_label_matrix()@ == old(self).node_label_matrix()@,
            final(self).tensors().len() == old(self).tensors().len(),
            forall|r: int| 0 <= r < final(self).tensors().len() ==> (#[trigger] final(self).tensors()[r])@ == old(self).tensors()[r]@
                && final(self).tensors()[r].slots() == old(self).tensors()[r].slots(),
            final(self).label_counts() == old(self).label_counts(),
            final(self).edge_counts() == old(self).edge_counts(),
            final(self).policy() == old(self).policy(),
            final(self).reserved() == old(self).reserved(),
    {
        let d0 = self.nodes.item_cap();
        if cap <= d0 {
            return ;
        }
        self.nodes.ensure_cap(cap);
        let d = cap;
        proof {
            self.adjacency_matrix.lemma_wf();
            self.zero_matrix.lemma_wf();
            self.node_labels.lemma_wf();
        }
        self.adjacency_matrix.resize(d, d);
        self.zero_matrix.resize(d, d);
        let nc = self.node_labels.ncols();
        self.node_labels.resize(d, nc);
        proof {
            assert(self.adjacency_matrix@ =~= old(self).adjacency_matrix@);
            assert(self.zero_matrix@ =~= old(self).zero_matrix@);
            assert(self.node_labels@ =~= old(self).node_labels@);
        }
        let nl = self.labels.len();
        let mut l: usize = 0;
        let ghost mid = *self;
        while l < nl
            invariant
                self.relations == mid.relations,
                self.adjacency_matrix == mid.adjacency_matrix,
                self.zero_matrix == mid.zero_matrix,
                self.node_labels == mid.node_labels,
                self.nodes == mid.nodes,
                self.edges == mid.edges,
                self.stats == mid.stats,
                self.matrix_policy == mid.matrix_policy,
                self.reserved_node_count == mid.reserved_node_count,
                nl == self.labels@.len(),
                nl == old(self).labels@.len(),
                l <= nl,
                d0 < d,
                forall|q: int| 0 <= q < nl ==> (#[trigger] self.labels@[q])@ == old(self).labels@[q]@,
                forall|q: int| 0 <= q < l ==> Self::square(#[trigger] self.labels@[q], d, false),
                forall|q: int| l <= q < nl ==> #[trigger] self.labels@[q] == old(self).labels@[q],
                forall|q: int| 0 <= q < nl ==> Self::square(#[trigger] old(self).labels@[q], d0, false),
            decreases nl - l,
        {
            proof {
                self.labels@[l as int].lemma_wf();
            }
            self.labels[l].resize(d, d);
            proof {
                assert(self.labels@[l as int]@ =~= old(self).labels@[l as int]@);
            }
            l = l + 1;
        }
        let nr = self.relations.len();
        let mut r: usize = 0;
        let ghost mid2 = *self;
        while r < nr
            invariant
                self.labels == mid2.labels,
                self.adjacency_matrix == mid2.adjacency_matrix,
                self.zero_matrix == mid2.zero_matrix,
                self.node_labels == mid2.node_labels,
                self.nodes == mid2.nodes,
                self.edges == mid2.edges,
                self.stats == mid2.stats,
                self.matrix_policy == mid2.matrix_policy,
                self.reserved_node_count == mid2.reserved_node_count,
                nr == self.relations@.len(),
                nr == old(self).relations@.len(),
                r <= nr,
                d0 < d,
                forall|q: int| 0 <= q < nr ==> (#[trigger] self.relations@[q])@ == old(self).relations@[q]@
                    && self.relations@[q].slots() == old(self).relations@[q].slots(),
                forall|q: int| 0 <= q < r ==> (#[trigger] self.relations@[q]).wf() && self.relations@[q].rows() == d
                    && self.relations@[q].cols() == d,
                forall|q: int| r <= q < nr ==> #[trigger] self.relations@[q] == old(self).relations@[q],
                forall|q: int| 0 <= q < nr ==> (#[trigger] old(self).relations@[q]).wf() && old(self).relations@[q].rows() == d0
                    && old(self).relations@[q].cols() == d0,
            decreases nr - r,
        {
            self.relations[r].resize(d, d);
            r = r + 1;
        }
        proof {
            lemma_edges_ok_views(old(self).relations@, self.relations@, self.edges, self.stats.edge_count@);
            lemma_live_held_views(old(self).relations@, self.relations@, self.edges, Set::empty());
            assert forall|k: (u64, u64)| #[trigger] self.adjacency_matrix@.contains_key(k) <==> some_relation_has(self.relations@, k) by {
                if some_relation_has(self.relations@, k) {
                    let q = choose|q: int| 0 <= q < self.relations@.len() && (#[trigger] self.relations@[q])@.contains_key(k);
                    assert(old(self).relations@[q]@.contains_key(k));
                }
                if some_relation_has(old(self).relations@, k) {
                    let q = choose|q: int| 0 <= q < old(self).relations@.len() && (#[trigger] old(self).relations@[q])@.contains_key(k);
                    assert(self.relations@[q]@.contains_key(k));
                }
            }
            assert forall|c: (u64, u64)| #[trigger] self.node_labels@.contains_key(c) <==> (c.1 < self.labels@.len()
                && self.labels@[c.1 as int]@.contains_key((c.0, c.0))) by {
                if c.1 < self.labels@.len() {
                    assert(self.labels@[c.1 as int]@ == old(self).labels@[c.1 as int]@);
                }
            }
            assert forall|q: int, c: (u64, u64)|
                0 <= q < self.labels@.len() && #[trigger] self.labels@[q]@.contains_key(c) implies c.0 == c.1 by {
                assert(old(self).labels@[q]@.contains_key(c));
            }
            assert forall|q: int| 0 <= q < self.labels@.len() implies #[trigger] self.stats.node_count@[q] == self.labels@[q]@.dom().len() by {
                assert(self.labels@[q]@ == old(self).labels@[q]@);
            }
        }
    }
}

impl Graph {
    /// Takes a node slot (a freed id first, with no attribute set) for `n`,
    /// growing the matrices when the pool is full, and gives it `labels`.
    pub fn create_node(&mut self, n: &mut Node, labels: &[LabelID])
        requires
            old(self).wf(),
            old(self).node_pool()@.len() + 2 < u64::MAX,
            forall|t: int| 0 <= t < labels@.len() ==> 0 <= #[trigger] labels@[t] < old(self).label_matrices().len(),
        ensures
            final(self).wf(),
            final(n).id == old(self).node_pool().next_id(),
            final(n).attributes == 0,
            final(self).node_pool().live(final(n).id),
            !old(self).node_pool().live(final(n).id),
            final(self).node_pool()@ == (if final(n).id < old(self).node_pool()@.len() {
                old(self).node_pool()@.update(final(n).id as int, Some(0u64))
            } else {
                old(self).node_pool()@.push(Some(0u64))
            }),
            final(self).label_matrices().len() == old(self).label_matrices().len(),
            forall|l: int, k: (u64, u64)| 0 <= l < final(self).label_matrices().len() ==> (#[trigger] final(self).label_matrices()[l]@.contains_key(k)
                <==> (old(self).label_matrices()[l]@.contains_key(k) || (k == (final(n).id, final(n).id) && labels@.contains(l as i32)))),
            final(self).tensors().len() == old(self).tensors().len(),
            forall|r: int| 0 <= r < final(self).tensors().len() ==> (#[trigger] final(self).tensors()[r])@ == old(self).tensors()[r]@
                && final(self).tensors()[r].slots() == old(self).tensors()[r].slots(),
            final(self).edge_pool() == old(self).edge_pool(),
            final(self).adjacency()@ == old(self).adjacency()@,
            final(self).edge_counts() == old(self).edge_counts(),
            final(self).policy() == old(self).policy(),
            final(self).dim() >= old(self).dim(),
            final(n).id < final(self).dim(),
            final(self).reserved() == if old(n).id != INVALID_ENTITY_ID && old(self).reserved() > 0 {
                (old(self).reserved() - 1) as u64
            } else {
                old(self).reserved()
            },
    {
        let reserved = n.id != INVALID_ENTITY_ID;
        let len = self.nodes.len();
        if len >= self.nodes.item_cap() {
            self.ensure_node_cap(len + 1);
        }
        let ghost grown = *self;
        let id = self.nodes.allocate_item(0);
        n.id = id;
        n.attributes = 0;
        if reserved && self.reserved_node_count > 0 {
            self.reserved_node_count = self.reserved_node_count - 1;
        }
        proof {
            assert(self.dim() == grown.dim());
        }
        self.label_node(id, labels);
        proof {
            assert forall|l: int, k: (u64, u64)| 0 <= l < self.label_matrices().len() implies (#[trigger] self.label_matrices()[l]@.contains_key(k)
                <==> (old(self).label_matrices()[l]@.contains_key(k) || (k == (id, id) && labels@.contains(l as i32)))) by {
                assert(grown.label_matrices()[l]@ == old(self).label_matrices()[l]@);
            }
        }
    }

    /// Takes an edge slot for `e`, connects `src` to `dest` under relation `r`
    /// and counts the edge.
    pub fn create_edge(&mut self, src: NodeID, dest: NodeID, r: RelationID, e: &mut Edge)
        requires
            old(self).wf(),
            src < old(self).dim(),
            dest < old(self).dim(),
            0 <= r < old(self).tensors().len(),
            old(self).edge_pool()@.len() + 1 < MSB,
            old(self).tensors()[r as int].slots() + 1 < MSB,
        ensures
            final(self).wf(),
            final(e).id == old(self).edge_pool().next_id(),
            final(e).src_id == src,
            final(e).dest_id == dest,
            final(e).relation_id == r,
            final(e).attributes == 0,
            final(self).edge_pool().live(final(e).id),
            !old(self).edge_pool().live(final(e).id),
            final(self).edge_pool()@ == (if final(e).id < old(self).edge_pool()@.len() {
                old(self).edge_pool()@.update(final(e).id as int, Some(0u64))
            } else {
                old(self).edge_pool()@.push(Some(0u64))
            }),
            final(self).tensors().len() == old(self).tensors().len(),
            final(self).tensors()[r as int]@ == old(self).tensors()[r as int]@.insert(
                (src, dest),
                if old(self).tensors()[r as int]@.contains_key((src, dest)) {
                    old(self).tensors()[r as int]@[(src, dest)].insert(final(e).id)
                } else {
                    set![final(e).id]
                },
            ),
            final(self).tensors()[r as int].slots() <= old(self).tensors()[r as int].slots() + 1,
            forall|q: int| 0 <= q < final(self).tensors().len() && q != r ==> #[trigger] final(self).tensors()[q] == old(self).tensors()[q],
            final(self).adjacency()@.dom() == old(self).adjacency()@.dom().insert((src, dest)),
            final(self).label_matrices() == old(self).label_matrices(),
            final(self).node_label_matrix() == old(self).node_label_matrix(),
            final(self).node_pool() == old(self).node_pool(),
            final(self).dim() == old(self).dim(),
            final(self).label_counts() == old(self).label_counts(),
            final(self).policy() == old(self).policy(),
            final(self).edge_counts().len() == old(self).edge_counts().len(),
            final(self).edge_counts()[r as int] == old(self).edge_counts()[r as int] + 1,
            forall|q: int| 0 <= q < final(self).edge_counts().len() && q != r ==> #[trigger] final(self).edge_counts()[q] == old(self).edge_counts()[q],
            live_count(final(self).edge_pool()@) == live_count(old(self).edge_pool()@) + 1,
    {
        e.src_id = src;
        e.dest_id = dest;
        e.relation_id = r;
        let ghost pool0 = self.edges;
        let id = self.edges.allocate_item(0);
        e.id = id;
        e.attributes = 0;
        proof {
            if id < pool0@.len() {
                crate::datablock::lemma_live_count_update(pool0@, id as int, Some(0u64));
            } else {
                crate::datablock::lemma_live_count_push(pool0@, Some(0u64));
            }
            self.lemma_fresh_slot(pool0, id);
            assert forall|x: u64| #[trigger] self.edges.live(x) && !set![id].contains(x) implies pool0.live(x) && !Set::<u64>::empty().contains(x) by {
                assert(x != id);
            }
            lemma_live_held_pool(self.relations@, pool0, self.edges, Set::empty(), set![id]);
        }
        self.form_connection(src, dest, r, id);
    }

    /// Records edge `id` from `src` to `dest` under relation `r`.
    fn form_connection(&mut self, src: u64, dest: u64, r: i32, id: u64)
        requires
            old(self).wf_core(),
            old(self).adj_ok(),
            live_held_except(old(self).relations@, old(self).edges, set![id]),
            src < old(self).dim(),
            dest < old(self).dim(),
            0 <= r < old(self).tensors().len(),
            id < MSB,
            old(self).tensors()[r as int].slots() + 1 < MSB,
            old(self).edge_pool().live(id),
            forall|q: int, key: (u64, u64)| !#[trigger] holds(*old(self), q, key, id),
        ensures
            final(self).wf(),
            final(self).tensors().len() == old(self).tensors().len(),
            final(self).tensors()[r as int]@ == old(self).tensors()[r as int]@.insert(
                (src, dest),
                if old(self).tensors()[r as int]@.contains_key((src, dest)) {
                    old(self).tensors()[r as int]@[(src, dest)].insert(id)
                } else {
                    set![id]
                },
            ),
            final(self).tensors()[r as int].slots() <= old(self).tensors()[r as int].slots() + 1,
            forall|q: int| 0 <= q < final(self).tensors().len() && q != r ==> #[trigger] final(self).tensors()[q] == old(self).tensors()[q],
            final(self).adjacency()@.dom() == old(self).adjacency()@.dom().insert((src, dest)),
            final(self).label_matrices() == old(self).label_matrices(),
            final(self).node_label_matrix() == old(self).node_label_matrix(),
            final(self).node_pool() == old(self).node_pool(),
            final(self).edge_pool() == old(self).edge_pool(),
            final(self).dim() == old(self).dim(),
            final(self).label_counts() == old(self).label_counts(),
            final(self).policy() == old(self).policy(),
            final(self).edge_counts().len() == old(self).edge_counts().len(),
            final(self).edge_counts()[r as int] == old(self).edge_counts()[r as int] + 1,
            forall|q: int| 0 <= q < final(self).edge_counts().len() && q != r ==> #[trigger] final(self).edge_counts()[q] == old(self).edge_counts()[q],
    {
        self.adjacency_matrix.set_element_bool(src, dest);
        proof {
            self.relations@[r as int].lemma_ids_bounded();
        }
        self.relations[r as usize].set_element(src, dest, id);
        self.stats.increment_edge_count(r, 1);
        proof {
            let ri = r as int;
            let key = (src, dest);
            let olds = old(self).relations@;
            let rels = self.relations@;
            assert forall|q: int, k: (u64, u64), x: u64| #[trigger] rel_holds(rels, q, k, x) == (rel_holds(olds, q, k, x) || (q == ri && k == key && x == id)) by {
                if q != ri && 0 <= q < rels.len() {
                    assert(rels[q] == olds[q]);
                }
                if q == ri && k == key && x == id {
                    assert(rels[q]@[key].contains(id));
                }
            }
            assert(!rel_ids(olds[ri]@).contains(id)) by {
                if rel_ids(olds[ri]@).contains(id) {
                    let k = choose|k: (u64, u64)| #[trigger] olds[ri]@.contains_key(k) && olds[ri]@[k].contains(id);
                    assert(holds(*old(self), ri, k, id));
                }
            }
            assert(rel_ids(rels[ri]@) =~= rel_ids(olds[ri]@).insert(id)) by {
                assert forall|x: u64| #[trigger] rel_ids(rels[ri]@).contains(x) implies rel_ids(olds[ri]@).insert(id).contains(x) by {
                    let k = choose|k: (u64, u64)| #[trigger] rels[ri]@.contains_key(k) && rels[ri]@[k].contains(x);
                    assert(rel_holds(rels, ri, k, x));
                    if x != id {
                        assert(rel_holds(olds, ri, k, x));
                    }
                }
                assert forall|x: u64| rel_ids(olds[ri]@).insert(id).contains(x) implies #[trigger] rel_ids(rels[ri]@).contains(x) by {
                    if x == id {
                        assert(rel_holds(rels, ri, key, id));
                    } else {
                        let k = choose|k: (u64, u64)| #[trigger] olds[ri]@.contains_key(k) && olds[ri]@[k].contains(x);
                        assert(rel_holds(olds, ri, k, x));
                        assert(rel_holds(rels, ri, k, x));
                    }
                }
            }
            assert forall|q: int| 0 <= q < rels.len() implies #[trigger] self.stats.edge_count@[q] == rel_ids(rels[q]@).len() by {
                if q != ri {
                    assert(rels[q] == olds[q]);
                }
            }
            assert forall|x: u64| #[trigger] self.edges.live(x) && !Set::<u64>::empty().contains(x) implies exists|q: int, k: (u64, u64)| rel_holds(rels, q, k, x) by {
                if x == id {
                    assert(rel_holds(rels, ri, key, id));
                } else {
                    assert(old(self).edges.live(x) && !set![id].contains(x));
                    let (q, k) = choose|q: int, k: (u64, u64)| rel_holds(olds, q, k, x);
                    assert(rel_holds(rels, q, k, x));
                }
            }
            assert forall|q1: int, k1: (u64, u64), q2: int, k2: (u64, u64), x: u64|
                #[trigger] rel_holds(rels, q1, k1, x) && #[trigger] rel_holds(rels, q2, k2, x) implies q1 == q2 && k1 == k2 by {
                if x == id {
                    if rel_holds(olds, q1, k1, x) {
                        assert(holds(*old(self), q1, k1, x));
                    }
                    if rel_holds(olds, q2, k2, x) {
                        assert(holds(*old(self), q2, k2, x));
                    }
                } else {
                    assert(rel_holds(olds, q1, k1, x) && rel_holds(olds, q2, k2, x));
                }
            }
            assert forall|q: int| 0 <= q < self.relations@.len() implies (#[trigger] self.relations@[q]).wf()
                && self.relations@[q].rows() == self.dim() && self.relations@[q].cols() == self.dim() by {
                if q != ri {
                    assert(self.relations@[q] == old(self).relations@[q]);
                }
            }
            assert forall|k: (u64, u64)| #[trigger] self.adjacency_matrix@.contains_key(k) <==> some_relation_has(self.relations@, k) by {
                if k == (src, dest) {
                    assert(self.relations@[ri]@.contains_key(k));
                } else {
                    if some_relation_has(self.relations@, k) {
                        let q = choose|q: int| 0 <= q < self.relations@.len() && (#[trigger] self.relations@[q])@.contains_key(k);
                        assert(old(self).relations@[q]@.contains_key(k));
                    }
                    if some_relation_has(old(self).relations@, k) {
                        let q = choose|q: int| 0 <= q < old(self).relations@.len() && (#[trigger] old(self).relations@[q])@.contains_key(k);
                        assert(self.relations@[q]@.contains_key(k));
                    }
                }
            }
            assert(self.adjacency_matrix@.dom() =~= old(self).adjacency_matrix@.dom().insert((src, dest)));
        }
    }
}

impl Graph {
    /// Unsets `adjacency[src, dest]` unless some relation other than `r`
    /// still connects `src` to `dest`.
    fn clear_adjacency_matrix_element(&mut self, r: RelationID, src: u64, dest: u64)
        requires
            old(self).wf_core(),
            live_held_except(old(self).relations@, old(self).edges, Set::empty()),
            0 <= r < old(self).relations@.len(),
            !old(self).relations@[r as int]@.contains_key((src, dest)),
            src < old(self).dim(),
            dest < old(self).dim(),
            forall|k: (u64, u64)| k != (src, dest) ==> (#[trigger] old(self).adjacency_matrix@.contains_key(k)
                <==> some_relation_has(old(self).relations@, k)),
        ensures
            final(self).wf(),
            final(self).relations == old(self).relations,
            final(self).labels == old(self).labels,
            final(self).node_labels == old(self).node_labels,
            final(self).nodes == old(self).nodes,
            final(self).edges == old(self).edges,
            final(self).stats == old(self).stats,
            final(self).matrix_policy == old(self).matrix_policy,
            final(self).reserved_node_count == old(self).reserved_node_count,
    {
        let n = self.relations.len();
        let mut i: usize = 0;
        while i < n
            invariant
                n == self.relations@.len(),
                i <= n,
                self == old(self),
                self.wf_core(),
                live_held_except(self.relations@, self.edges, Set::empty()),
                src < self.dim(),
                dest < self.dim(),
                forall|k: (u64, u64)| k != (src, dest) ==> (#[trigger] old(self).adjacency_matrix@.contains_key(k)
                    <==> some_relation_has(old(self).relations@, k)),
                forall|q: int| 0 <= q < i ==> !(#[trigger] self.relations@[q])@.contains_key((src, dest)),
                0 <= r < n,
                !self.relations@[r as int]@.contains_key((src, dest)),
            decreases n - i,
        {
            if i != r as usize {
                proof {
                    self.relations@[i as int].lemma_matrix();
                }
                if self.relations[i].matrix().extract_element_u64(src, dest).is_some() {
                    proof {
                        if !self.adjacency_matrix@.contains_key((src, dest)) {
                        }
                        assert(some_relation_has(self.relations@, (src, dest)));
                    }
                    if self.adjacency_matrix.extract_element_bool(src, dest).is_none() {
                        self.adjacency_matrix.set_element_bool(src, dest);
                    }
                    proof {
                        assert forall|k: (u64, u64)| #[trigger] self.adjacency_matrix@.contains_key(k) <==> some_relation_has(self.relations@, k) by {
                            if k != (src, dest) {
                                assert(old(self).adjacency_matrix@.contains_key(k) == self.adjacency_matrix@.contains_key(k));
                            }
                        }
                    }
                    return ;
                }
            }
            i = i + 1;
        }
        self.adjacency_matrix.remove_element(src, dest);
        proof {
            assert forall|k: (u64, u64)| #[trigger] self.adjacency_matrix@.contains_key(k) <==> some_relation_has(self.relations@, k) by {
                if k == (src, dest) && some_relation_has(self.relations@, k) {
                    let q = choose|q: int| 0 <= q < self.relations@.len() && (#[trigger] self.relations@[q])@.contains_key(k);
                }
            }
        }
    }

    /// Deletes one edge: frees its slot, takes it out of its cell and, when the
    /// cell empties, clears the adjacency unless another relation connects.
    fn delete_one(&mut self, e: Edge)
        requires
            old(self).wf(),
            0 <= e.relation_id < old(self).tensors().len(),
            old(self).edge_pool().live(e.id),
            old(self).tensors()[e.relation_id as int]@.contains_key(edge_key(e)),
            old(self).tensors()[e.relation_id as int]@[edge_key(e)].contains(e.id),
        ensures
            final(self).wf(),
            final(self).edge_pool()@ == old(self).edge_pool()@.update(e.id as int, None),
            final(self).tensors().len() == old(self).tensors().len(),
            final(self).tensors()[e.relation_id as int]@ == without_edges(old(self).tensors()[e.relation_id as int]@, seq![e]),
            forall|q: int| 0 <= q < final(self).tensors().len() && q != e.relation_id ==> #[trigger] final(self).tensors()[q] == old(self).tensors()[q],
            final(self).label_matrices() == old(self).label_matrices(),
            final(self).node_label_matrix() == old(self).node_label_matrix(),
            final(self).node_pool() == old(self).node_pool(),
            final(self).dim() == old(self).dim(),
            final(self).label_counts() == old(self).label_counts(),
            final(self).policy() == old(self).policy(),
            final(self).reserved() == old(self).reserved(),
    {
        let r = e.relation_id;
        self.edges.delete_item(e.id);
        let mut one: Vec<Edge> = Vec::new();
        one.push(e);
        proof {
            assert(one@ == seq![e]);
            assert(crate::tensor::edges_grouped(one@));
            self.relations@[r as int].lemma_shape();
            self.relations@[r as int].lemma_matrix();
            self.relations@[r as int].matrix_spec().lemma_wf();
        }
        let ghost pool1 = self.edges;
        let cleared = self.relations[r as usize].remove_elements(one.as_slice());
        self.stats.decrement_edge_count(r, 1);
        proof {
            let ri = r as int;
            let key = edge_key(e);
            let olds = old(self).relations@;
            let rels = self.relations@;
            assert forall|q: int, k: (u64, u64), x: u64| #[trigger] rel_holds(rels, q, k, x) == (rel_holds(olds, q, k, x) && !(q == ri && k == key && x == e.id)) by {
                if q != ri && 0 <= q < rels.len() {
                    assert(rels[q] == olds[q]);
                }
                if q == ri {
                    let ids = crate::tensor::ids_at(seq![e], k);
                    if k == key {
                        assert(ids =~= set![e.id]) by {
                            assert(seq![e][0] == e);
                        }
                    } else {
                        assert(ids =~= Set::<u64>::empty());
                    }
                }
            }
            assert(rel_holds(olds, ri, key, e.id));
            assert forall|q: int, k: (u64, u64), x: u64| #[trigger] rel_holds(rels, q, k, x) implies self.edges.live(x) by {
                assert(rel_holds(olds, q, k, x));
                if x == e.id {
                    assert(q == ri && k == key);
                }
                assert(pool1.live(x));
            }
            assert forall|q1: int, k1: (u64, u64), q2: int, k2: (u64, u64), x: u64|
                #[trigger] rel_holds(rels, q1, k1, x) && #[trigger] rel_holds(rels, q2, k2, x) implies q1 == q2 && k1 == k2 by {
                assert(rel_holds(olds, q1, k1, x) && rel_holds(olds, q2, k2, x));
            }
            assert(rel_ids(rels[ri]@) =~= rel_ids(olds[ri]@).remove(e.id)) by {
                assert forall|x: u64| #[trigger] rel_ids(rels[ri]@).contains(x) implies rel_ids(olds[ri]@).remove(e.id).contains(x) by {
                    let k = choose|k: (u64, u64)| #[trigger] rels[ri]@.contains_key(k) && rels[ri]@[k].contains(x);
                    assert(rel_holds(rels, ri, k, x));
                    assert(rel_holds(olds, ri, k, x));
                    if x == e.id {
                        assert(k == key);
                    }
                }
                assert forall|x: u64| rel_ids(olds[ri]@).remove(e.id).contains(x) implies #[trigger] rel_ids(rels[ri]@).contains(x) by {
                    let k = choose|k: (u64, u64)| #[trigger] olds[ri]@.contains_key(k) && olds[ri]@[k].contains(x);
                    assert(rel_holds(olds, ri, k, x));
                    assert(rel_holds(rels, ri, k, x));
                }
            }
            old(self).relations@[ri].lemma_ids_bounded();
            assert(rel_ids(olds[ri]@).contains(e.id));
            assert forall|q: int| 0 <= q < rels.len() implies #[trigger] self.stats.edge_count@[q] == rel_ids(rels[q]@).len() by {
                if q != ri {
                    assert(rels[q] == olds[q]);
                }
            }
            assert forall|x: u64| #[trigger] self.edges.live(x) && !Set::<u64>::empty().contains(x) implies exists|q: int, k: (u64, u64)| rel_holds(rels, q, k, x) by {
                assert(pool1.live(x));
                assert(x != e.id);
                assert(old(self).edges.live(x) && !Set::<u64>::empty().contains(x));
                let (q, k) = choose|q: int, k: (u64, u64)| rel_holds(olds, q, k, x);
                assert(rel_holds(rels, q, k, x));
            }
            assert forall|q: int| 0 <= q < self.relations@.len() implies (#[trigger] self.relations@[q]).wf()
                && self.relations@[q].rows() == self.dim() && self.relations@[q].cols() == self.dim() by {
                if q != ri {
                    assert(self.relations@[q] == old(self).relations@[q]);
                }
            }
            assert(self.wf_core());
        }
        if cleared.len() > 0 {
            proof {
                let c = edge_key(e);
                assert(exists|u: int| 0 <= u < cleared@.len() && edge_key(one@[#[trigger] cleared@[u] as int]) == c) by {
                    assert(cleared@[0] < 1);
                    assert(edge_key(one@[cleared@[0] as int]) == c);
                }
                assert(!self.relations@[r as int]@.contains_key(c));
                assert forall|k: (u64, u64)| k != c implies (#[trigger] self.adjacency_matrix@.contains_key(k)
                    <==> some_relation_has(self.relations@, k)) by {
                    assert(self.relations@[r as int]@.contains_key(k) == old(self).relations@[r as int]@.contains_key(k)) by {
                        if old(self).relations@[r as int]@.contains_key(k) && !self.relations@[r as int]@.contains_key(k) {
                            let u = choose|u: int| 0 <= u < cleared@.len() && edge_key(one@[#[trigger] cleared@[u] as int]) == k;
                            assert(cleared@[u] < 1);
                        }
                    }
                    if some_relation_has(self.relations@, k) {
                        let q = choose|q: int| 0 <= q < self.relations@.len() && (#[trigger] self.relations@[q])@.contains_key(k);
                        if q != r as int {
                            assert(self.relations@[q] == old(self).relations@[q]);
                        }
                        assert(old(self).relations@[q]@.contains_key(k));
                    }
                    if some_relation_has(old(self).relations@, k) {
                        let q = choose|q: int| 0 <= q < old(self).relations@.len() && (#[trigger] old(self).relations@[q])@.contains_key(k);
                        if q != r as int {
                            assert(self.relations@[q] == old(self).relations@[q]);
                        }
                        assert(self.relations@[q]@.contains_key(k));
                    }
                }
                assert(e.src_id < self.dim() && e.dest_id < self.dim());
            }
            self.clear_adjacency_matrix_element(r, e.src_id, e.dest_id);
        } else {
            proof {
                assert forall|k: (u64, u64)| #[trigger] self.adjacency_matrix@.contains_key(k) <==> some_relation_has(self.relations@, k) by {
                    assert(self.relations@[r as int]@.contains_key(k) == old(self).relations@[r as int]@.contains_key(k)) by {
                        if old(self).relations@[r as int]@.contains_key(k) && !self.relations@[r as int]@.contains_key(k) {
                            assert(exists|u: int| 0 <= u < cleared@.len() && edge_key(one@[#[trigger] cleared@[u] as int]) == k);
                        }
                    }
                    if some_relation_has(self.relations@, k) {
                        let q = choose|q: int| 0 <= q < self.relations@.len() && (#[trigger] self.relations@[q])@.contains_key(k);
                        if q != r as int {
                            assert(self.relations@[q] == old(self).relations@[q]);
                        }
                        assert(old(self).relations@[q]@.contains_key(k));
                    }
                    if some_relation_has(old(self).relations@, k) {
                        let q = choose|q: int| 0 <= q < old(self).relations@.len() && (#[trigger] old(self).relations@[q])@.contains_key(k);
                        if q != r as int {
                            assert(self.relations@[q] == old(self).relations@[q]);
                        }
                        assert(self.relations@[q]@.contains_key(k));
                    }
                }
            }
        }
    }
}

impl Graph {
    /// Deletes the edges of `edges` (each live and held by its relation; an
    /// id listed twice stands for the same edge): `edges` is sorted by
    /// `(relation, src, dest)`, their slots are freed, their ids leave their
    /// cells, and adjacency follows.
    pub fn delete_edges(&mut self, edges: &mut Vec<Edge>)
        requires
            old(self).wf(),
            forall|t: int| 0 <= t < old(edges)@.len() ==> 0 <= (#[trigger] old(edges)@[t]).relation_id < old(self).tensors().len()
                && old(self).edge_pool().live(old(edges)@[t].id)
                && holds(*old(self), old(edges)@[t].relation_id as int, edge_key(old(edges)@[t]), old(edges)@[t].id),
            forall|a: int, b: int| 0 <= a < old(edges)@.len() && 0 <= b < old(edges)@.len() && (#[trigger] old(edges)@[a]).id == (#[trigger] old(edges)@[b]).id ==> old(edges)@[a] == old(edges)@[b],
        ensures
            final(self).wf(),
            crate::edge_order::sorted_by(final(edges)@, true),
            final(edges)@.to_multiset() == old(edges)@.to_multiset(),
            final(self).edge_pool()@.len() == old(self).edge_pool()@.len(),
            forall|i: int| 0 <= i < old(self).edge_pool()@.len() ==> #[trigger] final(self).edge_pool()@[i] == if listed_id(final(edges)@, final(edges)@.len() as int, i as u64) {
                None
            } else {
                old(self).edge_pool()@[i]
            },
            final(self).tensors().len() == old(self).tensors().len(),
            forall|q: int, key: (u64, u64), id: u64| #[trigger] holds(*final(self), q, key, id) <==> (holds(*old(self), q, key, id)
                && !listed(final(edges)@, final(edges)@.len() as int, q, key, id)),
            final(self).label_matrices() == old(self).label_matrices(),
            final(self).node_label_matrix() == old(self).node_label_matrix(),
            final(self).node_pool() == old(self).node_pool(),
            final(self).dim() == old(self).dim(),
            final(self).label_counts() == old(self).label_counts(),
            final(self).policy() == old(self).policy(),
    {
        crate::edge_order::sort_edges(edges, true);
        let policy = self.set_matrix_policy(MatrixPolicy::Nop);
        let ghost es = edges@;
        proof {
            let o = old(edges)@;
            assert forall|t: int| 0 <= t < es.len() implies 0 <= (#[trigger] es[t]).relation_id < old(self).tensors().len()
                && old(self).edge_pool().live(es[t].id)
                && holds(*old(self), es[t].relation_id as int, edge_key(es[t]), es[t].id) by {
                crate::edge_order::lemma_perm_member(es, o, t);
                let j = choose|j: int| 0 <= j < o.len() && o[j] == es[t];
            }
            assert forall|a: int, b: int| 0 <= a < es.len() && 0 <= b < es.len() && (#[trigger] es[a]).id == (#[trigger] es[b]).id implies es[a] == es[b] by {
                crate::edge_order::lemma_perm_member(es, o, a);
                crate::edge_order::lemma_perm_member(es, o, b);
                let ja = choose|j: int| 0 <= j < o.len() && o[j] == es[a];
                let jb = choose|j: int| 0 <= j < o.len() && o[j] == es[b];
                assert(o[ja].id == o[jb].id);
            }
        }
        let ghost start = *self;
        let mut k: usize = 0;
        while k < edges.len()
            invariant
                self.wf(),
                es == edges@,
                k <= es.len(),
                self.tensors().len() == old(self).tensors().len(),
                self.edge_pool()@.len() == old(self).edge_pool()@.len(),
                forall|a: int, b: int| 0 <= a < es.len() && 0 <= b < es.len() && (#[trigger] es[a]).id == (#[trigger] es[b]).id ==> es[a] == es[b],
                forall|t: int| 0 <= t < es.len() ==> 0 <= (#[trigger] es[t]).relation_id < old(self).tensors().len()
                    && old(self).edge_pool().live(es[t].id)
                    && holds(*old(self), es[t].relation_id as int, edge_key(es[t]), es[t].id),
                forall|i: int| 0 <= i < old(self).edge_pool()@.len() ==> #[trigger] self.edge_pool()@[i] == if listed_id(es, k as int, i as u64) {
                    None
                } else {
                    old(self).edge_pool()@[i]
                },
                forall|q: int, key: (u64, u64), id: u64| #[trigger] holds(*self, q, key, id) <==> (holds(*old(self), q, key, id)
                    && !listed(es, k as int, q, key, id)),
                self.label_matrices() == old(self).label_matrices(),
                self.node_label_matrix() == old(self).node_label_matrix(),
                self.node_pool() == old(self).node_pool(),
                self.dim() == old(self).dim(),
                self.label_counts() == old(self).label_counts(),
            decreases es.len() - k,
        {
            let e = edges[k];
            let ghost prev = *self;
            let live = self.edges.get_item(e.id).is_some();
            proof {
                assert(e == es[k as int]);
                assert(old(self).edge_pool().live(e.id));
            }
            if live {
                proof {
                    assert(!listed_id(es, k as int, e.id)) by {
                        if listed_id(es, k as int, e.id) {
                            let t = choose|t: int| 0 <= t < k && (#[trigger] es[t]).id == e.id;
                            assert(es[t] == e);
                        }
                    }
                    assert(!listed(es, k as int, e.relation_id as int, edge_key(e), e.id)) by {
                        if listed(es, k as int, e.relation_id as int, edge_key(e), e.id) {
                            let t = choose|t: int| 0 <= t < k && (#[trigger] es[t]).id == e.id && es[t].relation_id == e.relation_id as int && edge_key(es[t]) == edge_key(e);
                            assert(listed_id(es, k as int, e.id));
                        }
                    }
                    assert(holds(*self, e.relation_id as int, edge_key(e), e.id));
                }
                self.delete_one(e);
            }
            proof {
                let nk = (k + 1) as int;
                assert forall|i: int| 0 <= i < old(self).edge_pool()@.len() implies #[trigger] self.edge_pool()@[i] == if listed_id(es, nk, i as u64) {
                    None
                } else {
                    old(self).edge_pool()@[i]
                } by {
                    self.edges.lemma_len();
                    assert(prev.edge_pool()@[i] == if listed_id(es, k as int, i as u64) {
                        None
                    } else {
                        old(self).edge_pool()@[i]
                    });
                    assert(live == prev.edge_pool().live(e.id));
                    if live {
                        assert(self.edge_pool()@ == prev.edge_pool()@.update(e.id as int, None));
                    } else {
                        assert(*self == prev);
                    }
                    if listed_id(es, nk, i as u64) && !listed_id(es, k as int, i as u64) {
                        let t = choose|t: int| 0 <= t < nk && (#[trigger] es[t]).id == i as u64;
                        assert(t == k);
                    }
                    if listed_id(es, k as int, i as u64) {
                        let t = choose|t: int| 0 <= t < k && (#[trigger] es[t]).id == i as u64;
                        assert(listed_id(es, nk, i as u64));
                    }
                    if i == e.id && !listed_id(es, k as int, i as u64) {
                        assert(listed_id(es, nk, i as u64)) by {
                            assert(es[k as int].id == i as u64);
                        }
                    }
                }
                assert forall|q: int, key: (u64, u64), id: u64| #[trigger] holds(*self, q, key, id) <==> (holds(*old(self), q, key, id)
                    && !listed(es, nk, q, key, id)) by {
                    let this = q == e.relation_id as int && key == edge_key(e) && id == e.id;
                    assert(holds(prev, q, key, id) <==> (holds(*old(self), q, key, id) && !listed(es, k as int, q, key, id)));
                    assert(prev.edge_pool()@[e.id as int] == if listed_id(es, k as int, e.id) {
                        None
                    } else {
                        old(self).edge_pool()@[e.id as int]
                    });
                    assert(live == prev.edge_pool().live(e.id));
                    if !live {
                        assert(*self == prev);
                    }
                    assert(listed(es, nk, q, key, id) == (listed(es, k as int, q, key, id) || this)) by {
                        if listed(es, nk, q, key, id) && !this {
                            let t = choose|t: int| 0 <= t < nk && (#[trigger] es[t]).id == id && es[t].relation_id == q && edge_key(es[t]) == key;
                            assert(t != k);
                        }
                        if listed(es, k as int, q, key, id) {
                            let t = choose|t: int| 0 <= t < k && (#[trigger] es[t]).id == id && es[t].relation_id == q && edge_key(es[t]) == key;
                        }
                        if this {
                            assert(es[k as int] == e);
                        }
                    }
                    if live {
                        if 0 <= q < self.tensors().len() && q != e.relation_id as int {
                            assert(self.tensors()[q] == prev.tensors()[q]);
                        }
                        if q == e.relation_id as int {
                            let ids = crate::tensor::ids_at(seq![e], key);
                            if key == edge_key(e) {
                                assert(ids =~= set![e.id]) by {
                                    assert(seq![e][0] == e);
                                }
                            } else {
                                assert(ids =~= Set::<u64>::empty());
                            }
                        }
                    } else {
                        if this {
                            assert(!old(self).edge_pool().live(e.id) || listed_id(es, k as int, e.id));
                            assert(listed_id(es, k as int, e.id));
                            let t = choose|t: int| 0 <= t < k && (#[trigger] es[t]).id == e.id;
                            assert(es[t] == e);
                            assert(listed(es, k as int, q, key, id));
                        }
                    }
                }
            }
            k = k + 1;
        }
        let ghost before = *self;
        self.set_matrix_policy(policy);
        proof {
            assert forall|q: int, key: (u64, u64), id: u64| #[trigger] holds(*self, q, key, id) <==> (holds(*old(self), q, key, id)
                && !listed(es, es.len() as int, q, key, id)) by {
                assert(holds(before, q, key, id) == holds(*self, q, key, id));
            }
        }
    }
}

impl Graph {
    /// Deletes the nodes of `nodes` (each live, none with an edge): their
    /// labels are taken off and their slots freed.
    pub fn delete_nodes(&mut self, nodes: &[Node])
        requires
            old(self).wf(),
            forall|t: int| 0 <= t < nodes@.len() ==> old(self).node_pool().live((#[trigger] nodes@[t]).id),
            forall|t: int, q: int, key: (u64, u64)|
                0 <= t < nodes@.len() && 0 <= q < old(self).tensors().len() && #[trigger] old(self).tensors()[q]@.contains_key(key)
                    ==> key.0 != (#[trigger] nodes@[t]).id && key.1 != nodes@[t].id,
        ensures
            final(self).wf(),
            final(self).node_pool()@.len() == old(self).node_pool()@.len(),
            forall|i: int| 0 <= i < old(self).node_pool()@.len() ==> #[trigger] final(self).node_pool()@[i] == if listed_node(nodes@, nodes@.len() as int, i as u64) {
                None
            } else {
                old(self).node_pool()@[i]
            },
            final(self).label_matrices().len() == old(self).label_matrices().len(),
            forall|l: int, k: (u64, u64)| 0 <= l < final(self).label_matrices().len() ==> (#[trigger] final(self).label_matrices()[l]@.contains_key(k)
                <==> (old(self).label_matrices()[l]@.contains_key(k) && !(k.0 == k.1 && listed_node(nodes@, nodes@.len() as int, k.0)))),
            final(self).tensors() == old(self).tensors(),
            final(self).edge_pool() == old(self).edge_pool(),
            final(self).adjacency() == old(self).adjacency(),
            final(self).dim() == old(self).dim(),
            final(self).edge_counts() == old(self).edge_counts(),
            final(self).policy() == old(self).policy(),
    {
        let policy = self.set_matrix_policy(MatrixPolicy::Nop);
        let ghost ns = nodes@;
        let mut k: usize = 0;
        while k < nodes.len()
            invariant
                self.wf(),
                ns == nodes@,
                k <= ns.len(),
                forall|t: int| 0 <= t < ns.len() ==> old(self).node_pool().live((#[trigger] ns[t]).id),
                self.node_pool()@.len() == old(self).node_pool()@.len(),
                forall|i: int| 0 <= i < old(self).node_pool()@.len() ==> #[trigger] self.node_pool()@[i] == if listed_node(ns, k as int, i as u64) {
                    None
                } else {
                    old(self).node_pool()@[i]
                },
                self.label_matrices().len() == old(self).label_matrices().len(),
                forall|l: int, c: (u64, u64)| 0 <= l < self.label_matrices().len() ==> (#[trigger] self.label_matrices()[l]@.contains_key(c)
                    <==> (old(self).label_matrices()[l]@.contains_key(c) && !(c.0 == c.1 && listed_node(ns, k as int, c.0)))),
                self.tensors() == old(self).tensors(),
                self.edge_pool() == old(self).edge_pool(),
                self.adjacency() == old(self).adjacency(),
                self.dim() == old(self).dim(),
                self.edge_counts() == old(self).edge_counts(),
            decreases ns.len() - k,
        {
            let n = nodes[k];
            let ghost prev = *self;
            let live = self.nodes.get_item(n.id).is_some();
            proof {
                assert(n == ns[k as int]);
                self.nodes.lemma_len();
            }
            if live {
                let lbls = self.get_node_labels(&n);
                proof {
                    assert forall|t: int| 0 <= t < lbls@.len() implies 0 <= #[trigger] lbls@[t] < self.label_matrices().len() by {
                        assert(lbls@.contains(lbls@[t]));
                    }
                }
                self.remove_node_labels(n.id, lbls.as_slice());
                self.nodes.delete_item(n.id);
                proof {
                    assert forall|l: int, c: (u64, u64)| 0 <= l < self.label_matrices().len() implies (#[trigger] self.label_matrices()[l]@.contains_key(c)
                        <==> (old(self).label_matrices()[l]@.contains_key(c) && !(c.0 == c.1 && listed_node(ns, k + 1, c.0)))) by {
                        assert(prev.label_matrices()[l]@.contains_key(c) <==> (old(self).label_matrices()[l]@.contains_key(c) && !(c.0 == c.1 && listed_node(ns, k as int, c.0))));
                        assert(listed_node(ns, k + 1, c.0) == (listed_node(ns, k as int, c.0) || c.0 == n.id)) by {
                            if listed_node(ns, k + 1, c.0) && c.0 != n.id {
                                let t = choose|t: int| 0 <= t < k + 1 && (#[trigger] ns[t]).id == c.0;
                            }
                            if listed_node(ns, k as int, c.0) {
                                let t = choose|t: int| 0 <= t < k && (#[trigger] ns[t]).id == c.0;
                            }
                            if c.0 == n.id {
                                assert(ns[k as int].id == c.0);
                            }
                        }
                        if c == (n.id, n.id) && prev.label_matrices()[l]@.contains_key(c) {
                            assert(lbls@.contains(l as i32));
                        }
                    }
                }
            }
            proof {
                let nk = (k + 1) as int;
                assert forall|i: int| 0 <= i < old(self).node_pool()@.len() implies #[trigger] self.node_pool()@[i] == if listed_node(ns, nk, i as u64) {
                    None
                } else {
                    old(self).node_pool()@[i]
                } by {
                    self.nodes.lemma_len();
                    assert(prev.node_pool()@[i] == if listed_node(ns, k as int, i as u64) {
                        None
                    } else {
                        old(self).node_pool()@[i]
                    });
                    if listed_node(ns, nk, i as u64) && !listed_node(ns, k as int, i as u64) {
                        let t = choose|t: int| 0 <= t < nk && (#[trigger] ns[t]).id == i as u64;
                        assert(t == k);
                    }
                    if listed_node(ns, k as int, i as u64) {
                        let t = choose|t: int| 0 <= t < k && (#[trigger] ns[t]).id == i as u64;
                        assert(listed_node(ns, nk, i as u64));
                    }
                    if i == n.id {
                        assert(listed_node(ns, nk, i as u64)) by {
                            assert(ns[k as int].id == i as u64);
                        }
                    }
                }
                if !live {
                    assert(prev.node_pool()@[n.id as int] == if listed_node(ns, k as int, n.id) {
                        None
                    } else {
                        old(self).node_pool()@[n.id as int]
                    });
                    assert(listed_node(ns, k as int, n.id));
                    assert forall|l: int, c: (u64, u64)| 0 <= l < self.label_matrices().len() implies (#[trigger] self.label_matrices()[l]@.contains_key(c)
                        <==> (old(self).label_matrices()[l]@.contains_key(c) && !(c.0 == c.1 && listed_node(ns, nk, c.0)))) by {
                        assert(prev.label_matrices()[l]@.contains_key(c) <==> (old(self).label_matrices()[l]@.contains_key(c) && !(c.0 == c.1 && listed_node(ns, k as int, c.0))));
                        if listed_node(ns, nk, c.0) && !listed_node(ns, k as int, c.0) {
                            let t = choose|t: int| 0 <= t < nk && (#[trigger] ns[t]).id == c.0;
                            assert(t == k);
                            let t2 = choose|t2: int| 0 <= t2 < k && (#[trigger] ns[t2]).id == n.id;
                        }
                        if listed_node(ns, k as int, c.0) {
                            let t = choose|t: int| 0 <= t < k && (#[trigger] ns[t]).id == c.0;
                            assert(listed_node(ns, nk, c.0));
                        }
                    }
                }
            }
            k = k + 1;
        }
        self.set_matrix_policy(policy);
    }
}

impl Graph {
    /// Creates every edge of `edges` under relation `r`: each gets a fresh
    /// slot and id, and all are written into the tensor in one batch.
    pub fn create_edges(&mut self, r: RelationID, edges: &mut Vec<Edge>)
        requires
            old(self).wf(),
            0 <= r < old(self).tensors().len(),
            forall|t: int| 0 <= t < old(edges)@.len() ==> (#[trigger] old(edges)@[t]).src_id < old(self).dim()
                && old(edges)@[t].dest_id < old(self).dim(),
            old(self).edge_pool()@.len() + old(edges)@.len() < MSB,
            old(self).tensors()[r as int].slots() + old(edges)@.len() < MSB,
        ensures
            final(self).wf(),
            final(edges)@.len() == old(edges)@.len(),
            crate::edge_order::sorted_by(final(edges)@, false),
            exists|s: Seq<Edge>| #[trigger] crate::edge_order::same_cells(final(edges)@, s) && s.to_multiset() == old(edges)@.to_multiset(),
            forall|t: int| 0 <= t < final(edges)@.len() ==> (#[trigger] final(edges)@[t]).relation_id == r
                && final(edges)@[t].attributes == 0 && final(self).edge_pool().live(final(edges)@[t].id)
                && !old(self).edge_pool().live(final(edges)@[t].id),
            forall|x: int, y: int| 0 <= x < y < final(edges)@.len() ==> (#[trigger] final(edges)@[x]).id != (#[trigger] final(edges)@[y]).id,
            forall|x: u64| #[trigger] old(self).edge_pool().live(x) ==> final(self).edge_pool().live(x)
                && final(self).edge_pool()@[x as int] == old(self).edge_pool()@[x as int],
            forall|x: u64| #[trigger] final(self).edge_pool().live(x) ==> old(self).edge_pool().live(x)
                || new_ids(final(edges)@, final(edges)@.len() as int).contains(x),
            live_count(final(self).edge_pool()@) == live_count(old(self).edge_pool()@) + final(edges)@.len(),
            final(self).edge_counts().len() == old(self).edge_counts().len(),
            final(self).edge_counts()[r as int] == old(self).edge_counts()[r as int] + final(edges)@.len(),
            forall|q: int| 0 <= q < final(self).edge_counts().len() && q != r ==> #[trigger] final(self).edge_counts()[q] == old(self).edge_counts()[q],
            final(self).tensors().len() == old(self).tensors().len(),
            final(self).tensors()[r as int]@ == crate::tensor::with_edges(old(self).tensors()[r as int]@, final(edges)@),
            forall|q: int| 0 <= q < final(self).tensors().len() && q != r ==> #[trigger] final(self).tensors()[q] == old(self).tensors()[q],
            final(self).label_matrices() == old(self).label_matrices(),
            final(self).node_label_matrix() == old(self).node_label_matrix(),
            final(self).node_pool() == old(self).node_pool(),
            final(self).dim() == old(self).dim(),
            final(self).label_counts() == old(self).label_counts(),
            final(self).policy() == old(self).policy(),
    {
        crate::edge_order::sort_edges(edges, false);
        let ghost sorted0 = edges@;
        proof {
            assert forall|i: int| 0 <= i < sorted0.len() implies (#[trigger] sorted0[i]).src_id < old(self).dim()
                && sorted0[i].dest_id < old(self).dim() by {
                crate::edge_order::lemma_perm_member(sorted0, old(edges)@, i);
            }
        }
        let n = edges.len();
        let mut t: usize = 0;
        proof {
            lemma_live_held_pool(self.relations@, self.edges, self.edges, Set::empty(), new_ids(edges@, 0));
        }
        while t < n
            invariant
                self.wf_core(),
                self.adj_ok(),
                live_held_except(self.relations@, self.edges, new_ids(edges@, t as int)),
                n == edges@.len(),
                n == sorted0.len(),
                t <= n,
                self.edge_pool()@.len() <= old(self).edge_pool()@.len() + t,
                old(self).edge_pool()@.len() + n < MSB,
                forall|i: int| 0 <= i < n ==> (#[trigger] edges@[i]).src_id == sorted0[i].src_id
                    && edges@[i].dest_id == sorted0[i].dest_id,
                forall|i: int| 0 <= i < t ==> (#[trigger] edges@[i]).relation_id == r && edges@[i].attributes == 0
                    && self.edge_pool().live(edges@[i].id) && edges@[i].id < MSB,
                forall|i: int, q: int, key: (u64, u64)| 0 <= i < t ==> !#[trigger] rel_holds(self.relations@, q, key, edges@[i].id),
                forall|x: int, y: int| 0 <= x < y < t ==> (#[trigger] edges@[x]).id != (#[trigger] edges@[y]).id,
                forall|i: int| 0 <= i < t ==> !old(self).edge_pool().live((#[trigger] edges@[i]).id),
                forall|x: u64| #[trigger] old(self).edge_pool().live(x) ==> self.edge_pool().live(x)
                    && self.edge_pool()@[x as int] == old(self).edge_pool()@[x as int],
                forall|x: u64| #[trigger] self.edge_pool().live(x) ==> old(self).edge_pool().live(x)
                    || new_ids(edges@, t as int).contains(x),
                self.tensors() == old(self).tensors(),
                self.adjacency() == old(self).adjacency(),
                self.label_matrices() == old(self).label_matrices(),
                self.node_label_matrix() == old(self).node_label_matrix(),
                self.node_pool() == old(self).node_pool(),
                self.label_counts() == old(self).label_counts(),
                self.edge_counts() == old(self).edge_counts(),
                self.policy() == old(self).policy(),
            decreases n - t,
        {
            let ghost before = self.edge_pool();
            let ghost eprev = edges@;
            assert(forall|i: int| 0 <= i < t ==> (#[trigger] eprev[i]).relation_id == r && eprev[i].attributes == 0
                && before.live(eprev[i].id) && eprev[i].id < MSB);
            assert(forall|i: int| 0 <= i < n ==> (#[trigger] eprev[i]).src_id == sorted0[i].src_id
                && eprev[i].dest_id == sorted0[i].dest_id);
            assert(forall|i: int, q: int, key: (u64, u64)| 0 <= i < t ==> !#[trigger] rel_holds(self.relations@, q, key, eprev[i].id));
            assert(forall|x: int, y: int| 0 <= x < y < t ==> (#[trigger] eprev[x]).id != (#[trigger] eprev[y]).id);
            assert(forall|i: int| 0 <= i < t ==> !old(self).edge_pool().live((#[trigger] eprev[i]).id));
            assert(forall|x: u64| #[trigger] old(self).edge_pool().live(x) ==> before.live(x)
                && before@[x as int] == old(self).edge_pool()@[x as int]);
            assert(forall|x: u64| #[trigger] before.live(x) ==> old(self).edge_pool().live(x)
                || new_ids(eprev, t as int).contains(x));
            let mut e = edges[t];
            e.relation_id = r;
            e.attributes = 0;
            let ghost self0 = *self;
            let id = self.edges.allocate_item(0);
            e.id = id;
            edges.set(t, e);
            proof {
                self.edges.lemma_len();
                let after = self.edge_pool()@;
                assert(after == if id < before@.len() { before@.update(id as int, Some(0u64)) } else { before@.push(Some(0u64)) });
                assert(!before.live(id));
                assert forall|x: u64| #[trigger] before.live(x) implies self.edge_pool().live(x) && after[x as int] == before@[x as int] by {
                    assert(x != id);
                }
                assert forall|i: int| 0 <= i < t + 1 implies (#[trigger] edges@[i]).relation_id == r && edges@[i].attributes == 0
                    && self.edge_pool().live(edges@[i].id) && edges@[i].id < MSB by {
                    if i < t {
                        assert(eprev[i] == edges@[i]);
                        assert(before.live(eprev[i].id));
                    }
                }
                self.lemma_fresh_slot(before, id);
                assert forall|i: int| 0 <= i < t + 1 implies !old(self).edge_pool().live((#[trigger] edges@[i]).id) by {
                    if i < t {
                        assert(eprev[i] == edges@[i]);
                    } else if old(self).edge_pool().live(id) {
                        assert(before.live(id));
                    }
                }
                assert forall|x: u64| #[trigger] old(self).edge_pool().live(x) implies self.edge_pool().live(x)
                    && self.edge_pool()@[x as int] == old(self).edge_pool()@[x as int] by {
                    assert(before.live(x));
                }
                assert forall|x: u64| #[trigger] self.edge_pool().live(x) implies old(self).edge_pool().live(x)
                    || new_ids(edges@, t + 1).contains(x) by {
                    assert(edges@[t as int].id == id);
                    if x == id {
                        assert(new_ids(edges@, t + 1).contains(x));
                    } else {
                        assert(after[x as int] == before@[x as int]);
                        assert(before.live(x));
                        if new_ids(eprev, t as int).contains(x) {
                            let i = choose|i: int| 0 <= i < t && (#[trigger] eprev[i]).id == x;
                            assert(edges@[i] == eprev[i]);
                            assert(new_ids(edges@, t + 1).contains(x));
                        }
                    }
                }
                assert forall|x: u64| #[trigger] self.edges.live(x) && !new_ids(edges@, t + 1).contains(x) implies before.live(x) && !new_ids(eprev, t as int).contains(x) by {
                    assert(edges@[t as int].id == id);
                    if x == id {
                        assert(new_ids(edges@, t + 1).contains(x));
                    }
                    if new_ids(eprev, t as int).contains(x) {
                        let i = choose|i: int| 0 <= i < t && (#[trigger] eprev[i]).id == x;
                        assert(edges@[i] == eprev[i]);
                        assert(new_ids(edges@, t + 1).contains(x));
                    }
                }
                lemma_live_held_pool(self.relations@, before, self.edges, new_ids(eprev, t as int), new_ids(edges@, t + 1));
                assert forall|i: int, q: int, key: (u64, u64)| 0 <= i < t + 1 implies !#[trigger] rel_holds(self.relations@, q, key, edges@[i].id) by {
                    if i < t {
                        assert(eprev[i] == edges@[i]);
                    } else {
                        assert(!holds(*self, q, key, id));
                    }
                }
                assert forall|x: int, y: int| 0 <= x < y < t + 1 implies (#[trigger] edges@[x]).id != (#[trigger] edges@[y]).id by {
                    if y < t {
                        assert(eprev[x] == edges@[x] && eprev[y] == edges@[y]);
                    } else {
                        assert(eprev[x] == edges@[x]);
                        assert(before.live(eprev[x].id));
                    }
                }
            }
            t = t + 1;
        }
        let ghost es = edges@;
        let ghost pool1 = self.edge_pool();
        let mut k: usize = 0;
        while k < n
            invariant
                self.wf_core(),
                es == edges@,
                n == es.len(),
                k <= n,
                forall|i: int| 0 <= i < n ==> (#[trigger] es[i]).src_id < self.dim() && es[i].dest_id < self.dim(),
                forall|c: (u64, u64)| #[trigger] self.adjacency_matrix@.contains_key(c) <==> (some_relation_has(self.relations@, c)
                    || crate::tensor::has_cell(es.take(k as int), c)),
                self.tensors() == old(self).tensors(),
                self.edge_pool() == pool1,
                live_held_except(self.relations@, self.edges, new_ids(es, n as int)),
                edges_ok_of(self.relations@, self.edges, self.stats.edge_count@),
                forall|i: int| 0 <= i < n ==> (#[trigger] es[i]).relation_id == r && self.edge_pool().live(es[i].id) && es[i].id < MSB,
                forall|i: int, q: int, key: (u64, u64)| 0 <= i < n ==> !#[trigger] rel_holds(self.relations@, q, key, es[i].id),
                forall|x: int, y: int| 0 <= x < y < n ==> (#[trigger] es[x]).id != (#[trigger] es[y]).id,
                self.label_matrices() == old(self).label_matrices(),
                self.node_label_matrix() == old(self).node_label_matrix(),
                self.node_pool() == old(self).node_pool(),
                self.label_counts() == old(self).label_counts(),
                self.edge_counts() == old(self).edge_counts(),
                self.policy() == old(self).policy(),
            decreases n - k,
        {
            let e = edges[k];
            let ghost prev = self.adjacency_matrix@;
            self.adjacency_matrix.set_element_bool(e.src_id, e.dest_id);
            proof {
                assert forall|c: (u64, u64)| #[trigger] self.adjacency_matrix@.contains_key(c) <==> (some_relation_has(self.relations@, c)
                    || crate::tensor::has_cell(es.take(k + 1), c)) by {
                    assert(prev.contains_key(c) <==> (some_relation_has(self.relations@, c) || crate::tensor::has_cell(es.take(k as int), c)));
                    assert(e == es[k as int]);
                    crate::tensor::lemma_has_cell_step(es, k as int, c);
                }
            }
            k = k + 1;
        }
        proof {
            assert(es.take(n as int) == es);
            self.relations@[r as int].lemma_shape();
        }
        let ghost prev_adj = self.adjacency_matrix@;
        let ghost rels0 = self.relations@;
        let ghost counts0 = self.stats.edge_count@;
        proof {
            self.relations@[r as int].lemma_ids_bounded();
        }
        self.relations[r as usize].set_elements(edges.as_slice());
        self.stats.increment_edge_count(r, n as u64);
        proof {
            lemma_add_fresh_edges(rels0, self.relations@, r as int, es, self.edges, counts0, self.stats.edge_count@);
            let rels = self.relations@;
            assert forall|x: u64| #[trigger] self.edges.live(x) && !Set::<u64>::empty().contains(x) implies exists|q: int, k: (u64, u64)| rel_holds(rels, q, k, x) by {
                if new_ids(es, n as int).contains(x) {
                    let i = choose|i: int| 0 <= i < n && (#[trigger] es[i]).id == x;
                    let k = edge_key(es[i]);
                    assert(crate::tensor::has_cell(es, k));
                    assert(crate::tensor::ids_at(es, k).contains(x));
                    assert(rel_holds(rels, r as int, k, x));
                } else {
                    let (q, k) = choose|q: int, k: (u64, u64)| rel_holds(rels0, q, k, x);
                    if q == r as int {
                        assert(rels[q]@.contains_key(k));
                        assert(rels[q]@[k].contains(x));
                    } else {
                        assert(rels[q] == rels0[q]);
                    }
                    assert(rel_holds(rels, q, k, x));
                }
            }
        }
        proof {
            let ri = r as int;
            assert forall|q: int| 0 <= q < self.relations@.len() implies (#[trigger] self.relations@[q]).wf()
                && self.relations@[q].rows() == self.dim() && self.relations@[q].cols() == self.dim() by {
                if q != ri {
                    assert(self.relations@[q] == old(self).relations@[q]);
                }
            }
            assert forall|c: (u64, u64)| #[trigger] self.adjacency_matrix@.contains_key(c) <==> some_relation_has(self.relations@, c) by {
                assert(prev_adj.contains_key(c) <==> (some_relation_has(old(self).relations@, c) || crate::tensor::has_cell(es, c)));
                if some_relation_has(self.relations@, c) {
                    let q = choose|q: int| 0 <= q < self.relations@.len() && (#[trigger] self.relations@[q])@.contains_key(c);
                    if q != ri {
                        assert(old(self).relations@[q]@.contains_key(c));
                    } else if !old(self).relations@[q]@.contains_key(c) {
                        assert(crate::tensor::has_cell(es, c));
                    }
                }
                if some_relation_has(old(self).relations@, c) {
                    let q = choose|q: int| 0 <= q < old(self).relations@.len() && (#[trigger] old(self).relations@[q])@.contains_key(c);
                    if q != ri {
                        assert(self.relations@[q] == old(self).relations@[q]);
                    }
                    assert(self.relations@[q]@.contains_key(c));
                }
                if crate::tensor::has_cell(es, c) {
                    assert(self.relations@[ri]@.contains_key(c));
                }
            }
        }
        proof {
            assert forall|x: int, y: int| 0 <= x < y < edges@.len() implies crate::edge_order::key_le(
                crate::edge_order::sort_key(#[trigger] edges@[x], false),
                crate::edge_order::sort_key(#[trigger] edges@[y], false),
            ) by {
                assert(crate::edge_order::key_le(crate::edge_order::sort_key(sorted0[x], false), crate::edge_order::sort_key(sorted0[y], false)));
            }
            assert(crate::edge_order::same_cells(edges@, sorted0));
        }
        proof {
            let es = edges@;
            let nn = es.len() as int;
            let ids = new_ids(es, nn);
            let p0 = old(self).edge_pool()@;
            let p1 = self.edge_pool()@;
            old(self).edges.lemma_len();
            self.edges.lemma_len();
            crate::datablock::lemma_live_set(p0);
            crate::datablock::lemma_live_set(p1);
            assert forall|x: u64| #[trigger] crate::datablock::live_set(p1).contains(x) == (crate::datablock::live_set(p0) + ids).contains(x) by {
                if ids.contains(x) {
                    let i = choose|i: int| 0 <= i < nn && (#[trigger] es[i]).id == x;
                    assert(self.edge_pool().live(es[i].id));
                }
                if old(self).edge_pool().live(x) {
                    assert(self.edge_pool().live(x));
                }
                if self.edge_pool().live(x) {
                    assert(old(self).edge_pool().live(x) || ids.contains(x));
                }
            }
            assert(crate::datablock::live_set(p1) =~= crate::datablock::live_set(p0) + ids);
            assert(crate::datablock::live_set(p0).disjoint(ids)) by {
                assert forall|x: u64| ids.contains(x) implies !crate::datablock::live_set(p0).contains(x) by {
                    let i = choose|i: int| 0 <= i < nn && (#[trigger] es[i]).id == x;
                    assert(!old(self).edge_pool().live(es[i].id));
                }
            }
            let idseq = es.map_values(|e: Edge| e.id);
            assert(idseq.no_duplicates()) by {
                assert forall|x: int, y: int| 0 <= x < idseq.len() && 0 <= y < idseq.len() && x != y implies idseq[x] != idseq[y] by {
                    if x < y {
                        assert(es[x].id != es[y].id);
                    } else {
                        assert(es[y].id != es[x].id);
                    }
                }
            }
            idseq.unique_seq_to_set();
            assert(idseq.to_set() =~= ids) by {
                assert forall|x: u64| idseq.to_set().contains(x) implies ids.contains(x) by {
                    let i = choose|i: int| 0 <= i < idseq.len() && idseq[i] == x;
                    assert(es[i].id == x);
                }
                assert forall|x: u64| ids.contains(x) implies idseq.to_set().contains(x) by {
                    let i = choose|i: int| 0 <= i < nn && (#[trigger] es[i]).id == x;
                    assert(idseq[i] == x);
                }
            }
            vstd::set_lib::lemma_set_disjoint_lens(crate::datablock::live_set(p0), ids);
        }
    }
}

impl Graph {
    /// Applies `policy` to a square matrix of dimension `n`: flush when dirty
    /// (and grow) under `FlushResize`, grow only under `Resize`.
    fn syncronize(policy: MatrixPolicy, m: &mut DeltaMatrix, n: u64)
        requires
            old(m).wf(),
            old(m).rows() == n,
            old(m).cols() == n,
        ensures
            final(m).wf(),
            final(m)@ == old(m)@,
            final(m).rows() == old(m).rows(),
            final(m).cols() == old(m).cols(),
            final(m).elem_type() == old(m).elem_type(),
            final(m).mirror() is Some <==> old(m).mirror() is Some,
            policy == MatrixPolicy::FlushResize ==> !final(m).dirty_flag(),
    {
        match policy {
            MatrixPolicy::FlushResize => {
                m.synchronize(n, n);
            },
            MatrixPolicy::Resize => {
                if m.nrows() < n || m.ncols() < n {
                    m.resize(n, n);
                }
            },
            MatrixPolicy::Nop => {},
        }
    }

    /// The adjacency matrix (or its mirror), synchronized by the current policy.
    pub fn get_adjacency_matrix(&mut self, transposed: bool) -> (r: &DeltaMatrix)
        requires
            old(self).wf(),
        ensures
            final(self).wf(),
            Self::same_content(*final(self), *old(self)),
            final(self).policy() == old(self).policy(),
            r.wf(),
            !transposed ==> r@ == old(self).adjacency()@,
            transposed ==> r@.dom() == crate::delta_matrix::swapped_dom(old(self).adjacency()@),
            !transposed ==> r.rows() == old(self).dim() && r.cols() == old(self).dim(),
            r.elem_type() == ElementType::Bool,
            transposed ==> r.rows() == old(self).dim() && r.cols() == old(self).dim(),
            !transposed && old(self).policy() == MatrixPolicy::FlushResize ==> !r.dirty_flag(),
    {
        let n = self.nodes.item_cap();
        Graph::syncronize(self.matrix_policy, &mut self.adjacency_matrix, n);
        proof {
            self.adjacency_matrix.lemma_wf();
        }
        if transposed {
            let t = self.adjacency_matrix.transposed().unwrap();
            t
        } else {
            &self.adjacency_matrix
        }
    }

    /// The matrix of label `label`, synchronized by the current policy; the
    /// shared empty matrix for an id out of range.
    pub fn get_label_matrix(&mut self, label: LabelID) -> (r: &DeltaMatrix)
        requires
            old(self).wf(),
        ensures
            final(self).wf(),
            Self::same_content(*final(self), *old(self)),
            final(self).policy() == old(self).policy(),
            r.wf(),
            0 <= label < old(self).label_matrices().len() ==> r@ == old(self).label_matrices()[label as int]@,
            0 <= label < old(self).label_matrices().len() && old(self).policy() == MatrixPolicy::FlushResize ==> !r.dirty_flag(),
            !(0 <= label < old(self).label_matrices().len()) ==> r@ == Map::<(u64, u64), u64>::empty(),
    {
        if label < 0 || label as usize >= self.labels.len() {
            return &self.zero_matrix;
        }
        let n = self.nodes.item_cap();
        let li = label as usize;
        proof {
            assert(Self::square(self.labels@[li as int], n, false));
        }
        Graph::syncronize(self.matrix_policy, &mut self.labels[li], n);
        proof {
            assert forall|q: int| 0 <= q < self.labels@.len() implies Self::square(#[trigger] self.labels@[q], n, false) by {
                if q != li {
                    assert(self.labels@[q] == old(self).labels@[q]);
                }
            }
            assert forall|q: int, c: (u64, u64)|
                0 <= q < self.labels@.len() && #[trigger] self.labels@[q]@.contains_key(c) implies c.0 == c.1 by {
                assert(old(self).labels@[q]@.contains_key(c));
            }
            assert forall|q: int| 0 <= q < self.labels@.len() implies #[trigger] self.stats.node_count@[q] == self.labels@[q]@.dom().len() by {
                assert(self.labels@[q]@ == old(self).labels@[q]@);
            }
            assert forall|c: (u64, u64)| #[trigger] self.node_labels@.contains_key(c) <==> (c.1 < self.labels@.len()
                && self.labels@[c.1 as int]@.contains_key((c.0, c.0))) by {
                if c.1 < self.labels@.len() {
                    assert(self.labels@[c.1 as int]@ == old(self).labels@[c.1 as int]@);
                }
            }
        }
        &self.labels[li]
    }

    /// The matrix of relation `relation_idx` (the adjacency matrix for a
    /// negative id), or its mirror, synchronized by the current policy.
    pub fn get_relation_matrix(&mut self, relation_idx: RelationID, transposed: bool) -> (r: &DeltaMatrix)
        requires
            old(self).wf(),
            relation_idx < old(self).tensors().len(),
        ensures
            final(self).wf(),
            Self::same_content(*final(self), *old(self)),
            final(self).policy() == old(self).policy(),
            r.wf(),
            relation_idx < 0 && !transposed ==> r@ == old(self).adjacency()@,
            relation_idx >= 0 && !transposed ==> r@.dom() == old(self).tensors()[relation_idx as int]@.dom(),
    {
        if relation_idx < 0 {
            return self.get_adjacency_matrix(transposed);
        }
        let ri = relation_idx as usize;
        let n = self.nodes.item_cap();
        proof {
            self.relations@[ri as int].lemma_matrix();
        }
        if self.matrix_policy == MatrixPolicy::FlushResize {
            self.relations[ri].synchronize();
        }
        proof {
            let q = ri as int;
            assert forall|x: int| 0 <= x < self.relations@.len() implies (#[trigger] self.relations@[x]).wf()
                && self.relations@[x].rows() == n && self.relations@[x].cols() == n by {
                if x != q {
                    assert(self.relations@[x] == old(self).relations@[x]);
                }
            }
            assert forall|k: (u64, u64)| #[trigger] self.adjacency_matrix@.contains_key(k) <==> some_relation_has(self.relations@, k) by {
                if some_relation_has(self.relations@, k) {
                    let x = choose|x: int| 0 <= x < self.relations@.len() && (#[trigger] self.relations@[x])@.contains_key(k);
                    assert(old(self).relations@[x]@ == self.relations@[x]@);
                }
                if some_relation_has(old(self).relations@, k) {
                    let x = choose|x: int| 0 <= x < old(self).relations@.len() && (#[trigger] old(self).relations@[x])@.contains_key(k);
                    assert(old(self).relations@[x]@ == self.relations@[x]@);
                }
            }
            self.relations@[q].lemma_matrix();
            self.relations@[q].matrix_spec().lemma_wf();
            lemma_edges_ok_views(old(self).relations@, self.relations@, self.edges, self.stats.edge_count@);
            lemma_live_held_views(old(self).relations@, self.relations@, self.edges, Set::empty());
        }
        let m = self.relations[ri].matrix();
        if transposed {
            m.transposed().unwrap()
        } else {
            m
        }
    }

    /// The node-label matrix, synchronized by the current policy.
    pub fn get_node_label_matrix(&mut self) -> (r: &DeltaMatrix)
        requires
            old(self).wf(),
        ensures
            final(self).wf(),
            Self::same_content(*final(self), *old(self)),
            final(self).policy() == old(self).policy(),
            r.wf(),
            r@ == old(self).node_label_matrix()@,
            old(self).policy() == MatrixPolicy::FlushResize ==> !r.dirty_flag(),
    {
        if self.matrix_policy == MatrixPolicy::FlushResize {
            let rows = self.node_labels.nrows();
            let cols = self.node_labels.ncols();
            self.node_labels.synchronize(rows, cols);
        }
        &self.node_labels
    }

    /// The shared empty matrix.
    pub fn get_zero_matrix(&mut self) -> (r: &DeltaMatrix)
        requires
            old(self).wf(),
        ensures
            final(self).wf(),
            Self::same_content(*final(self), *old(self)),
            final(self).policy() == old(self).policy(),
            r.wf(),
            r@ == Map::<(u64, u64), u64>::empty(),
    {
        &self.zero_matrix
    }

    /// Flushes every matrix of the graph; with `force_flush` every delta is
    /// committed. No logical value changes.
    pub fn apply_all_pending(&mut self, force_flush: bool)
        requires
            old(self).wf(),
        ensures
            final(self).wf(),
            Self::same_content(*final(self), *old(self)),
            final(self).policy() == old(self).policy(),
            force_flush ==> final(self).adjacency().dp_part()@ == Map::<(u64, u64), u64>::empty()
                && final(self).adjacency().dm_part()@ == Map::<(u64, u64), u64>::empty(),
            force_flush ==> final(self).node_label_matrix().dp_part()@ == Map::<(u64, u64), u64>::empty()
                && final(self).node_label_matrix().dm_part()@ == Map::<(u64, u64), u64>::empty(),
            force_flush ==> forall|l: int| 0 <= l < final(self).label_matrices().len() ==> (#[trigger] final(self).label_matrices()[l]).dp_part()@
                == Map::<(u64, u64), u64>::empty() && final(self).label_matrices()[l].dm_part()@ == Map::<(u64, u64), u64>::empty(),
            force_flush ==> forall|r: int| 0 <= r < final(self).tensors().len() ==> (#[trigger] final(self).tensors()[r]).matrix_spec().dp_part()@
                == Map::<(u64, u64), u64>::empty() && final(self).tensors()[r].matrix_spec().dm_part()@ == Map::<(u64, u64), u64>::empty(),
    {
        self.adjacency_matrix.wait(force_flush);
        self.node_labels.wait(force_flush);
        self.zero_matrix.wait(force_flush);
        let n = self.nodes.item_cap();
        let nl = self.labels.len();
        let ghost mid = *self;
        let mut l: usize = 0;
        while l < nl
            invariant
                nl == self.labels@.len(),
                l <= nl,
                self.relations == mid.relations,
                self.adjacency_matrix == mid.adjacency_matrix,
                self.zero_matrix == mid.zero_matrix,
                self.node_labels == mid.node_labels,
                self.nodes == mid.nodes,
                self.edges == mid.edges,
                self.stats == mid.stats,
                self.matrix_policy == mid.matrix_policy,
                self.reserved_node_count == mid.reserved_node_count,
                self.labels@.len() == old(self).labels@.len(),
                forall|q: int| 0 <= q < nl ==> (#[trigger] self.labels@[q])@ == old(self).labels@[q]@,
                forall|q: int| 0 <= q < nl ==> Self::square(#[trigger] self.labels@[q], n, false),
                force_flush ==> forall|q: int| 0 <= q < l ==> (#[trigger] self.labels@[q]).dp_part()@
                    == Map::<(u64, u64), u64>::empty() && self.labels@[q].dm_part()@ == Map::<(u64, u64), u64>::empty(),
            decreases nl - l,
        {
            self.labels[l].wait(force_flush);
            l = l + 1;
        }
        let nr = self.relations.len();
        let ghost mid2 = *self;
        let mut r: usize = 0;
        while r < nr
            invariant
                nr == self.relations@.len(),
                r <= nr,
                self.labels == mid2.labels,
                self.adjacency_matrix == mid2.adjacency_matrix,
                self.zero_matrix == mid2.zero_matrix,
                self.node_labels == mid2.node_labels,
                self.nodes == mid2.nodes,
                self.edges == mid2.edges,
                self.stats == mid2.stats,
                self.matrix_policy == mid2.matrix_policy,
                self.reserved_node_count == mid2.reserved_node_count,
                forall|q: int| 0 <= q < nr ==> (#[trigger] self.relations@[q])@ == old(self).relations@[q]@,
                forall|q: int| 0 <= q < nr ==> (#[trigger] self.relations@[q]).wf() && self.relations@[q].rows() == n
                    && self.relations@[q].cols() == n,
                force_flush ==> forall|q: int| 0 <= q < r ==> (#[trigger] self.relations@[q]).matrix_spec().dp_part()@
                    == Map::<(u64, u64), u64>::empty() && self.relations@[q].matrix_spec().dm_part()@ == Map::<(u64, u64), u64>::empty(),
            decreases nr - r,
        {
            self.relations[r].wait(force_flush);
            r = r + 1;
        }
        proof {
            lemma_edges_ok_views(old(self).relations@, self.relations@, self.edges, self.stats.edge_count@);
            lemma_live_held_views(old(self).relations@, self.relations@, self.edges, Set::empty());
        }
        proof {
            assert forall|k: (u64, u64)| #[trigger] self.adjacency_matrix@.contains_key(k) <==> some_relation_has(self.relations@, k) by {
                if some_relation_has(self.relations@, k) {
                    let x = choose|x: int| 0 <= x < self.relations@.len() && (#[trigger] self.relations@[x])@.contains_key(k);
                    assert(old(self).relations@[x]@ == self.relations@[x]@);
                }
                if some_relation_has(old(self).relations@, k) {
                    let x = choose|x: int| 0 <= x < old(self).relations@.len() && (#[trigger] old(self).relations@[x])@.contains_key(k);
                    assert(old(self).relations@[x]@ == self.relations@[x]@);
                }
            }
            assert forall|c: (u64, u64)| #[trigger] self.node_labels@.contains_key(c) <==> (c.1 < self.labels@.len()
                && self.labels@[c.1 as int]@.contains_key((c.0, c.0))) by {
                if c.1 < self.labels@.len() {
                    assert(self.labels@[c.1 as int]@ == old(self).labels@[c.1 as int]@);
                }
            }
            assert forall|q: int, c: (u64, u64)|
                0 <= q < self.labels@.len() && #[trigger] self.labels@[q]@.contains_key(c) implies c.0 == c.1 by {
                assert(old(self).labels@[q]@.contains_key(c));
            }
            assert forall|q: int| 0 <= q < self.labels@.len() implies #[trigger] self.stats.node_count@[q] == self.labels@[q]@.dom().len() by {
                assert(self.labels@[q]@ == old(self).labels@[q]@);
            }
        }
    }

    /// Whether any matrix has deferred work.
    pub fn pending(&self) -> (r: bool)
        ensures
            !r,
    {
        if self.adjacency_matrix.pending() || self.node_labels.pending() || self.zero_matrix.pending() {
            return true;
        }
        let mut l: usize = 0;
        while l < self.labels.len()
            invariant
                l <= self.labels@.len(),
            decreases self.labels@.len() - l,
        {
            if self.labels[l].pending() {
                return true;
            }
            l = l + 1;
        }
        let mut r: usize = 0;
        while r < self.relations.len()
            invariant
                r <= self.relations@.len(),
            decreases self.relations@.len() - r,
        {
            if self.relations[r].pending() {
                return true;
            }
            r = r + 1;
        }
        false
    }
}

impl Graph {
    /// Appends to `out` the edges of relation `q` in the rows (columns when
    /// `tr`) `nid..=nid`, one per `(src, dest, id)` triple.
    fn collect_range(&self, q: usize, nid: u64, tr: bool, out: &mut Vec<Edge>)
        requires
            self.wf(),
            q < self.tensors().len(),
        ensures
            final(out)@.len() >= old(out)@.len(),
            final(out)@.take(old(out)@.len() as int) == old(out)@,
            forall|j: int| old(out)@.len() <= j < final(out)@.len() ==> (#[trigger] final(out)@[j]).relation_id == q
                && triples_in(self.tensors()[q as int]@, tr, nid, nid).contains(edge_triple(final(out)@[j])),
            forall|t: (u64, u64, u64)| #[trigger] triples_in(self.tensors()[q as int]@, tr, nid, nid).contains(t)
                ==> found_after(final(out)@, old(out)@.len() as int, q as int, t),
            final(out)@.len() == old(out)@.len() + triples_in(self.tensors()[q as int]@, tr, nid, nid).len(),
    {
        let mut it = self.relations[q].iter_range(nid, nid, tr);
        proof {
            it.remaining().unique_seq_to_set();
        }
        let ghost items = it.remaining();
        let ghost base = out@;
        let ghost target = triples_in(self.tensors()[q as int]@, tr, nid, nid);
        let ghost mut taken: int = 0;
        let mut more = true;
        while more
            invariant
                it.wf(),
                0 <= taken <= items.len(),
                it.remaining() == items.skip(taken),
                !more ==> taken == items.len(),
                items.to_set() == target,
                q < 0x7fff_ffff,
                out@.len() == base.len() + taken,
                out@.take(base.len() as int) == base,
                forall|j: int| 0 <= j < taken ==> (#[trigger] out@[base.len() + j]).relation_id == q
                    && edge_triple(out@[base.len() + j]) == items[j],
            decreases items.len() - taken + (if more { 1int } else { 0int }),
        {
            match it.next() {
                Some((s, d, id)) => {
                    let attributes = match self.edges.get_item(id) {
                        Some(a) => a,
                        None => 0,
                    };
                    let ghost prev = out@;
                    out.push(Edge { id, src_id: s, dest_id: d, relation_id: q as i32, attributes });
                    proof {
                        assert(items.skip(taken)[0] == items[taken]);
                        assert(items.skip(taken).drop_first() =~= items.skip(taken + 1));
                        assert(out@.take(base.len() as int) =~= base) by {
                            assert(prev.take(base.len() as int) == base);
                        }
                        assert forall|j: int| 0 <= j < taken + 1 implies (#[trigger] out@[base.len() + j]).relation_id == q
                            && edge_triple(out@[base.len() + j]) == items[j] by {
                            if j < taken {
                                assert(out@[base.len() + j] == prev[base.len() + j]);
                            }
                        }
                        taken = taken + 1;
                    }
                },
                None => {
                    more = false;
                },
            }
        }
        proof {
            assert forall|j: int| base.len() <= j < out@.len() implies (#[trigger] out@[j]).relation_id == q
                && target.contains(edge_triple(out@[j])) by {
                let jj = j - base.len();
                assert(out@[base.len() + jj] == out@[j]);
                assert(items.contains(items[jj]));
            }
            assert forall|t: (u64, u64, u64)| #[trigger] target.contains(t) implies found_after(out@, base.len() as int, q as int, t) by {
                assert(items.to_set().contains(t));
                let jj = choose|jj: int| 0 <= jj < items.len() && items[jj] == t;
                assert(out@[base.len() + jj].relation_id == q);
            }
        }
    }

    /// The edges of `n` in direction `dir`, of relation `edge_type` (every
    /// relation for -1), appended to `edges`. With `Both`, a self-loop is
    /// listed once per direction.
    pub fn get_node_edges(&self, n: &Node, dir: GraphEdgeDir, edge_type: RelationID, edges: &mut Vec<Edge>)
        requires
            self.wf(),
            -1 <= edge_type < self.tensors().len(),
        ensures
            final(edges)@.len() >= old(edges)@.len(),
            final(edges)@.take(old(edges)@.len() as int) == old(edges)@,
            forall|j: int| old(edges)@.len() <= j < final(edges)@.len() ==> {
                let e = #[trigger] final(edges)@[j];
                &&& 0 <= e.relation_id < self.tensors().len()
                &&& (edge_type == -1 || e.relation_id == edge_type)
                &&& holds(*self, e.relation_id as int, edge_key(e), e.id)
                &&& ((dir != GraphEdgeDir::Incoming && e.src_id == n.id) || (dir != GraphEdgeDir::Outgoing && e.dest_id == n.id))
            },
            forall|q: int, key: (u64, u64), id: u64|
                #[trigger] holds(*self, q, key, id) && (edge_type == -1 || q == edge_type)
                    && ((dir != GraphEdgeDir::Incoming && key.0 == n.id) || (dir != GraphEdgeDir::Outgoing && key.1 == n.id))
                    ==> found_after(final(edges)@, old(edges)@.len() as int, q, (key.0, key.1, id)),
            final(edges)@.len() == old(edges)@.len() + if edge_type == -1 {
                degree_sum(*self, 0, self.tensors().len() as int, n.id, dir)
            } else {
                degree_in(*self, edge_type as int, n.id, dir)
            },
    {
        let ghost base = edges@;
        let count = self.relations.len();
        let (lo, hi) = if edge_type == -1 { (0usize, count) } else { (edge_type as usize, edge_type as usize + 1) };
        let mut pass: usize = 0;
        while pass < 2
            invariant
                self.wf(),
                count == self.tensors().len(),
                lo <= hi <= count,
                edge_type == -1 ==> lo == 0 && hi == count,
                edge_type != -1 ==> lo == edge_type && hi == edge_type + 1,
                pass <= 2,
                edges@.len() >= base.len(),
                edges@.take(base.len() as int) == base,
                forall|j: int| base.len() <= j < edges@.len() ==> {
                    let e = #[trigger] edges@[j];
                    &&& 0 <= e.relation_id < self.tensors().len()
                    &&& (edge_type == -1 || e.relation_id == edge_type)
                    &&& holds(*self, e.relation_id as int, edge_key(e), e.id)
                    &&& ((dir != GraphEdgeDir::Incoming && e.src_id == n.id) || (dir != GraphEdgeDir::Outgoing && e.dest_id == n.id))
                },
                forall|q: int, key: (u64, u64), id: u64|
                    #[trigger] holds(*self, q, key, id) && (edge_type == -1 || q == edge_type)
                        && ((pass > 0 && dir != GraphEdgeDir::Incoming && key.0 == n.id) || (pass > 1 && dir != GraphEdgeDir::Outgoing && key.1 == n.id))
                        ==> found_after(edges@, base.len() as int, q, (key.0, key.1, id)),
                edges@.len() == base.len() + (if pass > 0 && dir != GraphEdgeDir::Incoming { dir_sum(*self, lo as int, hi as int, n.id, false) } else { 0 })
                    + (if pass > 1 && dir != GraphEdgeDir::Outgoing { dir_sum(*self, lo as int, hi as int, n.id, true) } else { 0 }),
            decreases 2 - pass,
        {
            let tr = pass == 1;
            let active = if tr { dir != GraphEdgeDir::Outgoing } else { dir != GraphEdgeDir::Incoming };
            if active {
                let mut q = lo;
                while q < hi
                    invariant
                        self.wf(),
                        count == self.tensors().len(),
                        lo <= q <= hi <= count,
                        edge_type == -1 ==> lo == 0 && hi == count,
                        edge_type != -1 ==> lo == edge_type && hi == edge_type + 1,
                        tr == (pass == 1),
                        pass < 2,
                        active,
                        active == (if tr { dir != GraphEdgeDir::Outgoing } else { dir != GraphEdgeDir::Incoming }),
                        edges@.len() >= base.len(),
                        edges@.take(base.len() as int) == base,
                        forall|j: int| base.len() <= j < edges@.len() ==> {
                            let e = #[trigger] edges@[j];
                            &&& 0 <= e.relation_id < self.tensors().len()
                            &&& (edge_type == -1 || e.relation_id == edge_type)
                            &&& holds(*self, e.relation_id as int, edge_key(e), e.id)
                            &&& ((dir != GraphEdgeDir::Incoming && e.src_id == n.id) || (dir != GraphEdgeDir::Outgoing && e.dest_id == n.id))
                        },
                        forall|r: int, key: (u64, u64), id: u64|
                            #[trigger] holds(*self, r, key, id) && (edge_type == -1 || r == edge_type)
                                && ((pass > 0 && dir != GraphEdgeDir::Incoming && key.0 == n.id) || (pass > 1 && dir != GraphEdgeDir::Outgoing && key.1 == n.id)
                                    || (lo <= r < q && ((!tr && key.0 == n.id) || (tr && key.1 == n.id))))
                                ==> found_after(edges@, base.len() as int, r, (key.0, key.1, id)),
                        edges@.len() == base.len() + (if pass > 0 && dir != GraphEdgeDir::Incoming { dir_sum(*self, lo as int, hi as int, n.id, false) } else { 0 })
                            + dir_sum(*self, lo as int, q as int, n.id, tr),
                    decreases hi - q,
                {
                    let ghost before = edges@;
                    self.collect_range(q, n.id, tr, edges);
                    proof {
                        assert(edges@.take(base.len() as int) =~= base) by {
                            assert(edges@.take(before.len() as int) == before);
                            assert forall|j: int| 0 <= j < base.len() implies edges@[j] == base[j] by {
                                assert(edges@.take(before.len() as int)[j] == before[j]);
                                assert(before.take(base.len() as int)[j] == base[j]);
                            }
                        }
                        assert forall|j: int| base.len() <= j < edges@.len() implies {
                            let e = #[trigger] edges@[j];
                            &&& 0 <= e.relation_id < self.tensors().len()
                            &&& (edge_type == -1 || e.relation_id == edge_type)
                            &&& holds(*self, e.relation_id as int, edge_key(e), e.id)
                            &&& ((dir != GraphEdgeDir::Incoming && e.src_id == n.id) || (dir != GraphEdgeDir::Outgoing && e.dest_id == n.id))
                        } by {
                            if j < before.len() {
                                assert(edges@.take(before.len() as int)[j] == before[j]);
                            }
                        }
                        assert forall|r: int, key: (u64, u64), id: u64|
                            #[trigger] holds(*self, r, key, id) && (edge_type == -1 || r == edge_type)
                                && ((pass > 0 && dir != GraphEdgeDir::Incoming && key.0 == n.id) || (pass > 1 && dir != GraphEdgeDir::Outgoing && key.1 == n.id)
                                    || (lo <= r < q + 1 && ((!tr && key.0 == n.id) || (tr && key.1 == n.id))))
                                implies found_after(edges@, base.len() as int, r, (key.0, key.1, id)) by {
                            if r == q as int && ((!tr && key.0 == n.id) || (tr && key.1 == n.id)) {
                                assert(triples_in(self.tensors()[q as int]@, tr, n.id, n.id).contains((key.0, key.1, id)));
                                let j = choose|j: int| before.len() <= j < edges@.len() && (#[trigger] edges@[j]).relation_id == r && edge_triple(edges@[j]) == (key.0, key.1, id);
                            } else {
                                let j = choose|j: int| base.len() <= j < before.len() && (#[trigger] before[j]).relation_id == r && edge_triple(before[j]) == (key.0, key.1, id);
                                assert(edges@.take(before.len() as int)[j] == before[j]);
                                assert(edges@[j] == before[j]);
                            }
                        }
                    }
                    q = q + 1;
                }
            }
            pass = pass + 1;
        }
        proof {
            lemma_degree_split(*self, lo as int, hi as int, n.id, dir);
            if edge_type != -1 {
                assert(degree_sum(*self, lo as int, lo + 1, n.id, dir) == degree_sum(*self, lo as int, lo as int, n.id, dir) + degree_in(*self, lo as int, n.id, dir));
            }
        }
    }
}

impl Graph {
    /// Appends to `out` the edges of relation `q` in the cell `(src, dest)`.
    fn collect_cell(&self, q: usize, src: u64, dest: u64, out: &mut Vec<Edge>)
        requires
            self.wf(),
            q < self.tensors().len(),
        ensures
            final(out)@.len() >= old(out)@.len(),
            final(out)@.take(old(out)@.len() as int) == old(out)@,
            forall|j: int| old(out)@.len() <= j < final(out)@.len() ==> (#[trigger] final(out)@[j]).relation_id == q
                && final(out)@[j].src_id == src && final(out)@[j].dest_id == dest
                && holds(*self, q as int, (src, dest), final(out)@[j].id),
            forall|id: u64| #[trigger] holds(*self, q as int, (src, dest), id)
                ==> found_after(final(out)@, old(out)@.len() as int, q as int, (src, dest, id)),
    {
        let mut it = self.relations[q].iter(src, dest);
        let ghost items = it.remaining();
        let ghost base = out@;
        let ghost mut taken: int = 0;
        let mut more = true;
        while more
            invariant
                it.wf(),
                it.src() == src,
                it.dest() == dest,
                0 <= taken <= items.len(),
                it.remaining() == items.skip(taken),
                !more ==> taken == items.len(),
                q < 0x7fff_ffff,
                out@.len() == base.len() + taken,
                out@.take(base.len() as int) == base,
                forall|j: int| 0 <= j < taken ==> (#[trigger] out@[base.len() + j]).relation_id == q
                    && out@[base.len() + j].src_id == src && out@[base.len() + j].dest_id == dest
                    && out@[base.len() + j].id == items[j],
            decreases items.len() - taken + (if more { 1int } else { 0int }),
        {
            match it.next() {
                Some((s, d, id)) => {
                    let attributes = match self.edges.get_item(id) {
                        Some(a) => a,
                        None => 0,
                    };
                    let ghost prev = out@;
                    out.push(Edge { id, src_id: s, dest_id: d, relation_id: q as i32, attributes });
                    proof {
                        assert(items.skip(taken)[0] == items[taken]);
                        assert(items.skip(taken).drop_first() =~= items.skip(taken + 1));
                        assert(out@.take(base.len() as int) =~= base) by {
                            assert(prev.take(base.len() as int) == base);
                        }
                        assert forall|j: int| 0 <= j < taken + 1 implies (#[trigger] out@[base.len() + j]).relation_id == q
                            && out@[base.len() + j].src_id == src && out@[base.len() + j].dest_id == dest
                            && out@[base.len() + j].id == items[j] by {
                            if j < taken {
                                assert(out@[base.len() + j] == prev[base.len() + j]);
                            }
                        }
                        taken = taken + 1;
                    }
                },
                None => {
                    more = false;
                },
            }
        }
        proof {
            let cell = if self.tensors()[q as int]@.contains_key((src, dest)) {
                self.tensors()[q as int]@[(src, dest)]
            } else {
                Set::<u64>::empty()
            };
            assert(items.to_set() == cell);
            assert forall|j: int| base.len() <= j < out@.len() implies (#[trigger] out@[j]).relation_id == q
                && out@[j].src_id == src && out@[j].dest_id == dest && holds(*self, q as int, (src, dest), out@[j].id) by {
                let jj = j - base.len();
                assert(out@[base.len() + jj] == out@[j]);
                assert(items.contains(items[jj]));
                assert(cell.contains(items[jj]));
            }
            assert forall|id: u64| #[trigger] holds(*self, q as int, (src, dest), id) implies found_after(out@, base.len() as int, q as int, (src, dest, id)) by {
                assert(cell.contains(id));
                assert(items.to_set().contains(id));
                let jj = choose|jj: int| 0 <= jj < items.len() && items[jj] == id;
                assert(out@[base.len() + jj].relation_id == q);
            }
        }
    }

    /// The edges from `src_id` to `dest_id` of relation `r`: every relation
    /// for -1, none for -2.
    pub fn get_edges_connecting_nodes(&self, src_id: NodeID, dest_id: NodeID, r: RelationID) -> (res: Vec<Edge>)
        requires
            self.wf(),
            -2 <= r < self.tensors().len(),
        ensures
            forall|j: int| 0 <= j < res@.len() ==> {
                let e = #[trigger] res@[j];
                &&& 0 <= e.relation_id < self.tensors().len()
                &&& (r == -1 || e.relation_id == r)
                &&& e.src_id == src_id
                &&& e.dest_id == dest_id
                &&& holds(*self, e.relation_id as int, (src_id, dest_id), e.id)
            },
            forall|q: int, id: u64| #[trigger] holds(*self, q, (src_id, dest_id), id) && (r == -1 || q == r)
                ==> found_after(res@, 0, q, (src_id, dest_id, id)),
            r == -2 ==> res@.len() == 0,
    {
        let mut edges: Vec<Edge> = Vec::new();
        if r == -2 {
            return edges;
        }
        let count = self.relations.len();
        let (lo, hi) = if r == -1 { (0usize, count) } else { (r as usize, r as usize + 1) };
        let mut q = lo;
        while q < hi
            invariant
                self.wf(),
                count == self.tensors().len(),
                lo <= q <= hi <= count,
                r == -1 ==> lo == 0 && hi == count,
                r != -1 ==> lo == r && hi == r + 1,
                forall|j: int| 0 <= j < edges@.len() ==> {
                    let e = #[trigger] edges@[j];
                    &&& 0 <= e.relation_id < self.tensors().len()
                    &&& (r == -1 || e.relation_id == r)
                    &&& e.src_id == src_id
                    &&& e.dest_id == dest_id
                    &&& holds(*self, e.relation_id as int, (src_id, dest_id), e.id)
                },
                forall|x: int, id: u64| #[trigger] holds(*self, x, (src_id, dest_id), id) && lo <= x < q
                    ==> found_after(edges@, 0, x, (src_id, dest_id, id)),
            decreases hi - q,
        {
            let ghost before = edges@;
            self.collect_cell(q, src_id, dest_id, &mut edges);
            proof {
                assert forall|j: int| 0 <= j < edges@.len() implies {
                    let e = #[trigger] edges@[j];
                    &&& 0 <= e.relation_id < self.tensors().len()
                    &&& (r == -1 || e.relation_id == r)
                    &&& e.src_id == src_id
                    &&& e.dest_id == dest_id
                    &&& holds(*self, e.relation_id as int, (src_id, dest_id), e.id)
                } by {
                    if j < before.len() {
                        assert(edges@.take(before.len() as int)[j] == before[j]);
                    }
                }
                assert forall|x: int, id: u64| #[trigger] holds(*self, x, (src_id, dest_id), id) && lo <= x < q + 1
                    implies found_after(edges@, 0, x, (src_id, dest_id, id)) by {
                    if x < q {
                        let j = choose|j: int| 0 <= j < before.len() && (#[trigger] before[j]).relation_id == x && edge_triple(before[j]) == (src_id, dest_id, id);
                        assert(edges@.take(before.len() as int)[j] == before[j]);
                        assert(edges@[j] == before[j]);
                    } else {
                        let j = choose|j: int| before.len() <= j < edges@.len() && (#[trigger] edges@[j]).relation_id == x && edge_triple(edges@[j]) == (src_id, dest_id, id);
                    }
                }
            }
            q = q + 1;
        }
        edges
    }

    /// Number of edges of `n` in direction `dir` over relation `edge_type`
    /// (every relation for -1), saturating at `u64::MAX`.
    pub fn get_node_degree(&self, n: &Node, dir: GraphEdgeDir, edge_type: RelationID) -> (r: u64)
        requires
            self.wf(),
            -1 <= edge_type < self.tensors().len(),
        ensures
            edge_type == -1 ==> r == if degree_sum(*self, 0, self.tensors().len() as int, n.id, dir) <= u64::MAX {
                degree_sum(*self, 0, self.tensors().len() as int, n.id, dir) as u64
            } else {
                u64::MAX
            },
            edge_type >= 0 ==> r == if degree_in(*self, edge_type as int, n.id, dir) <= u64::MAX {
                degree_in(*self, edge_type as int, n.id, dir) as u64
            } else {
                u64::MAX
            },
    {
        let count = self.relations.len();
        let (lo, hi) = if edge_type == -1 { (0usize, count) } else { (edge_type as usize, edge_type as usize + 1) };
        let mut total: u64 = 0;
        let mut q = lo;
        proof {
            if edge_type >= 0 {
                assert(degree_sum(*self, lo as int, lo as int, n.id, dir) == 0);
            }
        }
        while q < hi
            invariant
                self.wf(),
                count == self.tensors().len(),
                lo <= q <= hi <= count,
                edge_type == -1 ==> lo == 0 && hi == count,
                edge_type != -1 ==> lo == edge_type && hi == edge_type + 1,
                total == if degree_sum(*self, lo as int, q as int, n.id, dir) <= u64::MAX {
                    degree_sum(*self, lo as int, q as int, n.id, dir) as u64
                } else {
                    u64::MAX
                },
            decreases hi - q,
        {
            let mut d: u64 = 0;
            if dir == GraphEdgeDir::Outgoing || dir == GraphEdgeDir::Both {
                d = self.relations[q].row_degree(n.id);
            }
            if dir == GraphEdgeDir::Incoming || dir == GraphEdgeDir::Both {
                let c = self.relations[q].col_degree(n.id);
                d = if d > u64::MAX - c { u64::MAX } else { d + c };
            }
            total = if total > u64::MAX - d { u64::MAX } else { total + d };
            proof {
                assert(degree_sum(*self, lo as int, q + 1, n.id, dir) == degree_sum(*self, lo as int, q as int, n.id, dir) + degree_in(*self, q as int, n.id, dir));
            }
            q = q + 1;
        }
        proof {
            if edge_type >= 0 {
                assert(degree_sum(*self, lo as int, lo + 1, n.id, dir) == degree_sum(*self, lo as int, lo as int, n.id, dir) + degree_in(*self, lo as int, n.id, dir));
            }
        }
        total
    }
}

impl Graph {
    /// Whether `e` is a live edge held by its relation in its cell.
    pub fn is_edge_connected(&self, e: &Edge) -> (r: bool)
        requires
            self.wf(),
        ensures
            r == (0 <= e.relation_id < self.tensors().len() && self.edge_pool().live(e.id)
                && holds(*self, e.relation_id as int, edge_key(*e), e.id)),
    {
        if e.relation_id < 0 || e.relation_id as usize >= self.relations.len() {
            return false;
        }
        if self.edges.get_item(e.id).is_none() {
            return false;
        }
        let found = self.get_edges_connecting_nodes(e.src_id, e.dest_id, e.relation_id);
        let mut j: usize = 0;
        while j < found.len()
            invariant
                j <= found@.len(),
                self.edge_pool().live(e.id),
                0 <= e.relation_id < self.tensors().len(),
                forall|t: int| 0 <= t < j ==> (#[trigger] found@[t]).id != e.id,
                forall|t: int| 0 <= t < found@.len() ==> (#[trigger] found@[t]).relation_id == e.relation_id
                    && holds(*self, found@[t].relation_id as int, (e.src_id, e.dest_id), found@[t].id),
            decreases found@.len() - j,
        {
            if found[j].id == e.id {
                proof {
                    assert(holds(*self, found@[j as int].relation_id as int, (e.src_id, e.dest_id), found@[j as int].id));
                }
                return true;
            }
            j = j + 1;
        }
        proof {
            if holds(*self, e.relation_id as int, edge_key(*e), e.id) {
                let t = choose|t: int| 0 <= t < found@.len() && (#[trigger] found@[t]).relation_id == e.relation_id as int
                    && edge_triple(found@[t]) == (e.src_id, e.dest_id, e.id);
            }
        }
        false
    }

    /// Stores attribute handle `set` in the slot of live node `id`.
    pub fn set_node_attributes(&mut self, id: NodeID, set: u64)
        requires
            old(self).wf(),
            old(self).node_pool().live(id),
        ensures
            final(self).wf(),
            final(self).node_pool()@ == old(self).node_pool()@.update(id as int, Some(set)),
            final(self).edge_pool() == old(self).edge_pool(),
            final(self).tensors() == old(self).tensors(),
            final(self).label_matrices() == old(self).label_matrices(),
            final(self).adjacency() == old(self).adjacency(),
            final(self).dim() == old(self).dim(),
    {
        self.nodes.set_item(id, set);
    }

    /// Stores attribute handle `set` in the slot of live edge `id`.
    pub fn set_edge_attributes(&mut self, id: EdgeID, set: u64)
        requires
            old(self).wf(),
            old(self).edge_pool().live(id),
        ensures
            final(self).wf(),
            final(self).edge_pool()@ == old(self).edge_pool()@.update(id as int, Some(set)),
            final(self).node_pool() == old(self).node_pool(),
            final(self).tensors() == old(self).tensors(),
            final(self).label_matrices() == old(self).label_matrices(),
            final(self).adjacency() == old(self).adjacency(),
            final(self).dim() == old(self).dim(),
    {
        let ghost p0 = self.edges;
        self.edges.set_item(id, set);
        proof {
            lemma_live_held_pool(self.relations@, p0, self.edges, Set::empty(), Set::empty());
            assert forall|q: int, key: (u64, u64), x: u64| #[trigger] rel_holds(self.relations@, q, key, x) implies self.edges.live(x) by {
                assert(p0.live(x));
            }
        }
    }

    /// Whether node `id` has no edge in any relation.
    pub fn node_is_isolated(&self, id: NodeID) -> (r: bool)
        requires
            self.wf(),
        ensures
            r == forall|q: int, key: (u64, u64)| 0 <= q < self.tensors().len() && #[trigger] self.tensors()[q]@.contains_key(key)
                ==> key.0 != id && key.1 != id,
    {
        let n = Node { id, attributes: 0 };
        let mut es: Vec<Edge> = Vec::new();
        self.get_node_edges(&n, GraphEdgeDir::Both, -1, &mut es);
        let r = es.len() == 0;
        proof {
            if r {
                assert forall|q: int, key: (u64, u64)| 0 <= q < self.tensors().len() && #[trigger] self.tensors()[q]@.contains_key(key)
                    implies key.0 != id && key.1 != id by {
                    self.tensors()[q].lemma_shape();
                    let cell = self.tensors()[q]@[key];
                    assert(cell.len() >= 1);
                    let x = cell.choose();
                    assert(cell.contains(x)) by {
                        if !cell.contains(x) {
                            assert(cell =~= Set::<u64>::empty());
                        }
                    }
                    assert(holds(*self, q, key, x));
                    if key.0 == id || key.1 == id {
                        assert(found_after(es@, 0, q, (key.0, key.1, x)));
                    }
                }
            } else {
                let e = es@[0];
                assert(holds(*self, e.relation_id as int, edge_key(e), e.id));
            }
        }
        r
    }
}

impl Graph {
    /// Number of node slots handed out so far, live or freed.
    pub fn node_slots(&self) -> (r: u64)
        ensures
            r == self.node_pool()@.len(),
    {
        self.nodes.len()
    }

    /// Number of edge slots handed out so far, live or freed.
    pub fn edge_slots(&self) -> (r: u64)
        ensures
            r == self.edge_pool()@.len(),
    {
        self.edges.len()
    }

    /// Number of bundle slots of relation `r`'s tensor.
    pub fn relation_bundle_slots(&self, r: usize) -> (res: usize)
        requires
            r < self.tensors().len(),
        ensures
            res == self.tensors()[r as int].slots(),
    {
        self.relations[r].slot_count()
    }

    /// Whether label `l` has no node.
    pub fn label_is_empty(&self, l: usize) -> (r: bool)
        requires
            self.wf(),
            l < self.label_matrices().len(),
        ensures
            r == (self.label_matrices()[l as int]@ == Map::<(u64, u64), u64>::empty()),
    {
        proof {
            self.labels@[l as int].lemma_wf();
        }
        let r = self.stats.node_count[l] == 0;
        proof {
            let m = self.labels@[l as int]@;
            if r {
                assert(m.dom().len() == 0);
                assert(m.dom() =~= Set::<(u64, u64)>::empty());
                assert(m =~= Map::<(u64, u64), u64>::empty());
            } else if m == Map::<(u64, u64), u64>::empty() {
                assert(m.dom() =~= Set::<(u64, u64)>::empty());
            }
        }
        r
    }

    /// Whether relation `q` has no edge.
    pub fn relation_is_empty(&self, q: usize) -> (r: bool)
        requires
            self.wf(),
            q < self.tensors().len(),
        ensures
            r == (self.tensors()[q as int]@ == Map::<(u64, u64), Set<u64>>::empty()),
    {
        proof {
            self.relations@[q as int].lemma_matrix();
            self.relations@[q as int].matrix_spec().lemma_wf();
        }
        let r = self.relations[q].matrix().nvals() == 0;
        proof {
            let m = self.relations@[q as int]@;
            if r {
                assert(m.dom().len() == 0);
                assert(m.dom() =~= Set::<(u64, u64)>::empty());
                assert(m =~= Map::<(u64, u64), Set<u64>>::empty());
            } else if m == Map::<(u64, u64), Set<u64>>::empty() {
                assert(m.dom() =~= Set::<(u64, u64)>::empty());
            }
        }
        r
    }
}

impl Graph {
    /// Creates node `id` at that very id (a freed slot, or one past the end),
    /// growing the matrices as needed, and gives it `labels`.
    pub fn set_node(&mut self, id: NodeID, labels: &[LabelID], n: &mut Node)
        requires
            old(self).wf(),
            !old(self).node_pool().live(id),
            id + 2 < u64::MAX,
            forall|t: int| 0 <= t < labels@.len() ==> 0 <= #[trigger] labels@[t] < old(self).label_matrices().len(),
        ensures
            final(self).wf(),
            final(n).id == id,
            final(n).attributes == 0,
            final(self).node_pool().live(id),
            final(self).node_pool()@[id as int] == Some(0u64),
            final(self).label_matrices().len() == old(self).label_matrices().len(),
            forall|l: int, k: (u64, u64)| 0 <= l < final(self).label_matrices().len() ==> (#[trigger] final(self).label_matrices()[l]@.contains_key(k)
                <==> (old(self).label_matrices()[l]@.contains_key(k) || (k == (id, id) && labels@.contains(l as i32)))),
            final(self).tensors().len() == old(self).tensors().len(),
            forall|r: int| 0 <= r < final(self).tensors().len() ==> (#[trigger] final(self).tensors()[r])@ == old(self).tensors()[r]@,
            final(self).edge_pool() == old(self).edge_pool(),
            final(self).adjacency()@ == old(self).adjacency()@,
            forall|x: u64| #[trigger] old(self).node_pool().live(x) ==> final(self).node_pool().live(x),
    {
        if id >= self.nodes.item_cap() {
            self.ensure_node_cap(id + 1);
        }
        let ghost grown = *self;
        self.nodes.allocate_item_at(id, 0);
        proof {
            assert forall|x: u64| #[trigger] old(self).node_pool().live(x) implies self.nodes.live(x) by {
                assert(grown.node_pool().live(x));
                assert(x != id);
            }
        }
        n.id = id;
        n.attributes = 0;
        self.label_node(id, labels);
        proof {
            assert forall|l: int, k: (u64, u64)| 0 <= l < self.label_matrices().len() implies (#[trigger] self.label_matrices()[l]@.contains_key(k)
                <==> (old(self).label_matrices()[l]@.contains_key(k) || (k == (id, id) && labels@.contains(l as i32)))) by {
                assert(grown.label_matrices()[l]@ == old(self).label_matrices()[l]@);
            }
        }
    }

    /// Creates edge `edge_id` at that very id from `src` to `dest` under
    /// relation `r`. A relation known to hold one edge per cell
    /// (`multi_edge` unset) takes the same path: writing into an empty cell
    /// stores the id itself.
    pub fn set_edge(&mut self, _multi_edge: bool, edge_id: EdgeID, src: NodeID, dest: NodeID, r: RelationID, e: &mut Edge)
        requires
            old(self).wf(),
            !old(self).edge_pool().live(edge_id),
            edge_id < MSB,
            src < old(self).dim(),
            dest < old(self).dim(),
            0 <= r < old(self).tensors().len(),
            old(self).tensors()[r as int].slots() + 1 < MSB,
        ensures
            final(self).wf(),
            final(e).id == edge_id,
            final(e).src_id == src,
            final(e).dest_id == dest,
            final(e).relation_id == r,
            final(e).attributes == 0,
            final(self).edge_pool().live(edge_id),
            final(self).tensors().len() == old(self).tensors().len(),
            final(self).tensors()[r as int]@ == old(self).tensors()[r as int]@.insert(
                (src, dest),
                if old(self).tensors()[r as int]@.contains_key((src, dest)) {
                    old(self).tensors()[r as int]@[(src, dest)].insert(edge_id)
                } else {
                    set![edge_id]
                },
            ),
            forall|q: int| 0 <= q < final(self).tensors().len() && q != r ==> #[trigger] final(self).tensors()[q] == old(self).tensors()[q],
            final(self).adjacency()@.dom() == old(self).adjacency()@.dom().insert((src, dest)),
            final(self).label_matrices() == old(self).label_matrices(),
            final(self).node_pool() == old(self).node_pool(),
            forall|x: u64| #[trigger] old(self).edge_pool().live(x) ==> final(self).edge_pool().live(x),
            final(self).tensors()[r as int].slots() <= old(self).tensors()[r as int].slots() + 1,
            final(self).dim() == old(self).dim(),
    {
        let ghost pool0 = self.edges;
        self.edges.allocate_item_at(edge_id, 0);
        proof {
            assert forall|x: u64| #[trigger] pool0.live(x) implies self.edges.live(x) by {
                assert(x != edge_id);
            }
            self.lemma_fresh_slot(pool0, edge_id);
            assert forall|x: u64| #[trigger] self.edges.live(x) && !set![edge_id].contains(x) implies pool0.live(x) && !Set::<u64>::empty().contains(x) by {
                assert(x != edge_id);
            }
            lemma_live_held_pool(self.relations@, pool0, self.edges, Set::empty(), set![edge_id]);
        }
        e.id = edge_id;
        e.src_id = src;
        e.dest_id = dest;
        e.attributes = 0;
        e.relation_id = r;
        self.form_connection(src, dest, r, edge_id);
    }

    /// Rebuilds the node-label matrix, empty on entry, from the label
    /// matrices' diagonals: `(n, l)` is set for every `(n, n)` of label `l`.
    pub fn set_node_labels(&mut self)
        requires
            old(self).wf_but_node_labels(),
            old(self).node_label_matrix()@ == Map::<(u64, u64), u64>::empty(),
        ensures
            final(self).wf(),
            forall|n: u64, l: u64| #[trigger] final(self).node_label_matrix()@.contains_key((n, l)) <==> (l
                < old(self).label_matrices().len() && old(self).label_matrices()[l as int]@.contains_key((n, n))),
            final(self).label_matrices() == old(self).label_matrices(),
            final(self).tensors() == old(self).tensors(),
            final(self).node_pool() == old(self).node_pool(),
            final(self).edge_pool() == old(self).edge_pool(),
            final(self).adjacency() == old(self).adjacency(),
    {
        let count = self.labels.len();
        let mut l: usize = 0;
        while l < count
            invariant
                self.wf_but_node_labels(),
                count == self.labels@.len(),
                l <= count,
                forall|c: (u64, u64)| #[trigger] self.node_labels@.contains_key(c) <==> (c.1 < l
                    && self.labels@[c.1 as int]@.contains_key((c.0, c.0))),
                self.labels == old(self).labels,
                self.relations == old(self).relations,
                self.nodes == old(self).nodes,
                self.edges == old(self).edges,
                self.adjacency_matrix == old(self).adjacency_matrix,
            decreases count - l,
        {
            let ids = self.diagonal_of(l);
            let mut k: usize = 0;
            while k < ids.len()
                invariant
                    self.wf_but_node_labels(),
                    count == self.labels@.len(),
                    l < count,
                    k <= ids@.len(),
                    forall|t: int| 0 <= t < ids@.len() ==> self.labels@[l as int]@.contains_key((#[trigger] ids@[t], ids@[t])),
                    forall|n: u64| #[trigger] self.labels@[l as int]@.contains_key((n, n)) ==> ids@.contains(n),
                    forall|c: (u64, u64)| #[trigger] self.node_labels@.contains_key(c) <==> ((c.1 < l
                        && self.labels@[c.1 as int]@.contains_key((c.0, c.0))) || (c.1 == l && ids@.take(k as int).contains(c.0))),
                    self.labels == old(self).labels,
                    self.relations == old(self).relations,
                    self.nodes == old(self).nodes,
                    self.edges == old(self).edges,
                    self.adjacency_matrix == old(self).adjacency_matrix,
                decreases ids@.len() - k,
            {
                let n = ids[k];
                let ghost before = self.node_labels@;
                proof {
                    assert(Self::square(self.labels@[l as int], self.dim(), false));
                    self.labels@[l as int].lemma_wf();
                    assert(self.labels@[l as int]@.contains_key((n, n)));
                }
                self.node_labels.set_element_bool(n, l as u64);
                proof {
                    assert forall|c: (u64, u64)| #[trigger] self.node_labels@.contains_key(c) <==> ((c.1 < l
                        && self.labels@[c.1 as int]@.contains_key((c.0, c.0))) || (c.1 == l && ids@.take(k + 1).contains(c.0))) by {
                        let a = ids@.take(k as int);
                        let b = ids@.take(k + 1);
                        assert(b == a.push(n));
                        if b.contains(c.0) && c.0 != n {
                            let t = choose|t: int| 0 <= t < b.len() && #[trigger] b[t] == c.0;
                            assert(a[t] == c.0);
                        }
                        if a.contains(c.0) {
                            let t = choose|t: int| 0 <= t < a.len() && #[trigger] a[t] == c.0;
                            assert(b[t] == c.0);
                        }
                        if c == (n, l as u64) {
                            assert(b[k as int] == n);
                        }
                    }
                }
                k = k + 1;
            }
            proof {
                assert(ids@.take(ids@.len() as int) == ids@);
                assert forall|c: (u64, u64)| #[trigger] self.node_labels@.contains_key(c) <==> (c.1 < l + 1
                    && self.labels@[c.1 as int]@.contains_key((c.0, c.0))) by {
                    if c.1 == l && ids@.contains(c.0) {
                        let t = choose|t: int| 0 <= t < ids@.len() && #[trigger] ids@[t] == c.0;
                    }
                }
            }
            l = l + 1;
        }
    }

    /// The nodes `n` with `(n, n)` in label matrix `l`.
    fn diagonal_of(&self, l: usize) -> (r: Vec<u64>)
        requires
            self.wf_base(),
            l < self.label_matrices().len(),
        ensures
            forall|t: int| 0 <= t < r@.len() ==> self.label_matrices()[l as int]@.contains_key((#[trigger] r@[t], r@[t])),
            forall|n: u64| #[trigger] self.label_matrices()[l as int]@.contains_key((n, n)) ==> r@.contains(n),
    {
        proof {
            assert(Self::square(self.labels@[l as int], self.dim(), false));
        }
        let mut it = DeltaMatrixIter::new(&self.labels[l]);
        let ghost items = it.remaining();
        let mut out: Vec<u64> = Vec::new();
        let ghost mut taken: int = 0;
        let mut more = true;
        while more
            invariant
                self.wf_base(),
                l < self.label_matrices().len(),
                it.wf(),
                it.attached(),
                0 <= taken <= items.len(),
                it.remaining() == items.skip(taken),
                !more ==> taken == items.len(),
                crate::sparse_matrix::sorted(items),
                crate::sparse_matrix::seq_map(items) == self.labels@[l as int]@,
                forall|t: int| 0 <= t < out@.len() ==> self.labels@[l as int]@.contains_key((#[trigger] out@[t], out@[t])),
                out@.len() == taken,
                forall|t: int| 0 <= t < taken ==> out@[t] == (#[trigger] items[t]).row,
            decreases items.len() - taken + (if more { 1int } else { 0int }),
        {
            match it.next_bool() {
                Ok(Some((i, j))) => {
                    proof {
                        assert(items.skip(taken)[0] == items[taken]);
                        lemma_map_at(items, taken);
                        assert(self.labels@[l as int]@.contains_key((i, j)));
                        assert(i == j);
                        assert(items.skip(taken).drop_first() =~= items.skip(taken + 1));
                    }
                    out.push(i);
                    proof {
                        taken = taken + 1;
                    }
                },
                _ => {
                    more = false;
                },
            }
        }
        proof {
            assert forall|n: u64| #[trigger] self.labels@[l as int]@.contains_key((n, n)) implies out@.contains(n) by {
                assert(crate::sparse_matrix::seq_map(items).contains_key((n, n)));
                let t = choose|t: int| 0 <= t < items.len() && crate::sparse_matrix::ekey(#[trigger] items[t]) == (n, n);
                assert(out@[t] == n);
            }
        }
        out
    }
}

impl Graph {
    /// Makes room for `n` more nodes, growing the matrices with the pool.
    pub fn allocate_nodes(&mut self, n: u64)
        requires
            old(self).wf(),
            old(self).node_pool()@.len() + n < u64::MAX,
        ensures
            final(self).wf(),
            final(self).dim() >= old(self).node_pool()@.len() + n,
            final(self).dim() >= old(self).dim(),
            final(self).node_pool()@ == old(self).node_pool()@,
            final(self).edge_pool() == old(self).edge_pool(),
            final(self).adjacency()@ == old(self).adjacency()@,
            final(self).label_matrices().len() == old(self).label_matrices().len(),
            forall|l: int| 0 <= l < final(self).label_matrices().len() ==> (#[trigger] final(self).label_matrices()[l])@ == old(self).label_matrices()[l]@,
            final(self).node_label_matrix()@ == old(self).node_label_matrix()@,
            final(self).tensors().len() == old(self).tensors().len(),
            forall|r: int| 0 <= r < final(self).tensors().len() ==> (#[trigger] final(self).tensors()[r])@ == old(self).tensors()[r]@,
    {
        let len = self.nodes.len();
        self.ensure_node_cap(len + n);
    }

    /// Makes room for `n` more edges in the edge pool.
    pub fn allocate_edges(&mut self, n: u64)
        requires
            old(self).wf(),
            old(self).edge_pool()@.len() + n < u64::MAX,
        ensures
            final(self).wf(),
            final(self).edge_pool().capacity() >= old(self).edge_pool()@.len() + n,
            final(self).edge_pool()@ == old(self).edge_pool()@,
            Self::same_content(*final(self), *old(self)),
    {
        let len = self.edges.len();
        let ghost p0 = self.edges;
        self.edges.ensure_cap(len + n);
        proof {
            lemma_live_held_pool(self.relations@, p0, self.edges, Set::empty(), Set::empty());
            assert forall|q: int, key: (u64, u64), x: u64| #[trigger] rel_holds(self.relations@, q, key, x) implies self.edges.live(x) by {
                assert(p0.live(x));
            }
        }
    }
}

} // verus!

use vstd::prelude::*;
use crate::graph::Graph;
use crate::graph_entity::{AttributeSet, Edge, EdgeID, LabelID, Node, NodeID, RelationID};
use crate::tensor::MSB;

verus! {

/// Id of a schema (a label or a relation type).
pub type SchemaID = i32;

/// Id of an attribute name.
pub type AttributeID = i32;

/// Whether a schema describes nodes or edges.
#[derive(Clone, Copy, Debug, PartialEq, Eq, Structural)]
pub enum SchemaType {
    Node,
    Edge,
}

/// Kind of an indexed field.
#[derive(Clone, Copy, Debug, PartialEq, Eq, Structural)]
pub enum IndexFieldType {
    Unknown,
    Fulltext,
    Numeric,
    Geo,
    String,
    Vector,
}

/// One entry of the undo log, grouping consecutive operations of one kind.
pub enum UndoOp {
    CreateNodes(Vec<Node>),
    CreateEdges(Vec<Edge>),
    DeleteNodes(Vec<(NodeID, AttributeSet, Vec<LabelID>)>),
    DeleteEdges(Vec<(EdgeID, NodeID, NodeID, RelationID, AttributeSet)>),
    UpdateNodes(Vec<(Node, AttributeSet)>),
    UpdateEdges(Vec<(Edge, AttributeSet)>),
    AddLabels(Vec<(Node, Vec<LabelID>)>),
    RemoveLabels(Vec<(Node, Vec<LabelID>)>),
    AddSchema(SchemaID, SchemaType),
    AddAttribute(AttributeID),
    CreateIndex(SchemaType, String, String, IndexFieldType),
}

/// Edge `e` is live and held by its relation in its cell.
pub open spec fn connected(g: Graph, e: Edge) -> bool {
    0 <= e.relation_id < g.tensors().len() && g.edge_pool().live(e.id)
        && crate::graph::holds(g, e.relation_id as int, crate::tensor::edge_key(e), e.id)
}

/// Some edge of `g` has node `id` as an endpoint.
pub open spec fn incident(g: Graph, id: u64) -> bool {
    exists|q: int, key: (u64, u64), x: u64| #[trigger] crate::graph::holds(g, q, key, x) && (key.0 == id || key.1 == id)
}

/// Every entry records creations.
pub open spec fn creation_only(ops: Seq<UndoOp>) -> bool {
    forall|i: int| 0 <= i < ops.len() ==> (#[trigger] ops[i] is CreateNodes || ops[i] is CreateEdges)
}

/// No node creation was recorded after an edge creation.
pub open spec fn nodes_first(ops: Seq<UndoOp>) -> bool {
    forall|i: int, j: int| 0 <= i < j < ops.len() && #[trigger] ops[i] is CreateEdges ==> #[trigger] ops[j] is CreateEdges
}

/// Graph-side effect of undoing edge creations: no recorded edge stays
/// connected, nothing new is held or live.
pub open spec fn edges_undone(a: Graph, b: Graph, v: Seq<Edge>) -> bool {
    &&& forall|t: int| 0 <= t < v.len() ==> !connected(b, #[trigger] v[t])
    &&& forall|q: int, key: (u64, u64), x: u64| #[trigger] crate::graph::holds(b, q, key, x) ==> crate::graph::holds(a, q, key, x)
    &&& forall|x: u64| #[trigger] b.edge_pool().live(x) ==> a.edge_pool().live(x)
    &&& b.node_pool() == a.node_pool()
    &&& b.tensors().len() == a.tensors().len()
}

/// Graph-side effect of undoing node creations: a recorded node still live
/// has an edge (it was not deleted only because it had one); edges are untouched.
pub open spec fn nodes_undone(a: Graph, b: Graph, v: Seq<Node>) -> bool {
    &&& forall|t: int| 0 <= t < v.len() && b.node_pool().live((#[trigger] v[t]).id) ==> incident(b, v[t].id)
    &&& forall|x: u64| #[trigger] b.node_pool().live(x) ==> a.node_pool().live(x)
    &&& b.tensors() == a.tensors()
    &&& b.edge_pool() == a.edge_pool()
}

/// Edge `e` stands for id `x` of relation `q` in cell `key`.
pub open spec fn matches(e: Edge, q: int, key: (u64, u64), x: u64) -> bool {
    e.relation_id as int == q && crate::tensor::edge_key(e) == key && e.id == x
}

/// One of `v[lo..]` stands for id `x` of relation `q` in cell `key`.
pub open spec fn recorded_from(v: Seq<Edge>, lo: int, q: int, key: (u64, u64), x: u64) -> bool {
    exists|i: int| lo <= i < v.len() && matches(#[trigger] v[i], q, key, x)
}

/// One of `v[lo..]` has id `x` and is held as recorded in `a`.
pub open spec fn dropped_from(v: Seq<Edge>, lo: int, a: Graph, x: u64) -> bool {
    exists|i: int| lo <= i < v.len() && (#[trigger] v[i]).id == x
        && crate::graph::holds(a, v[i].relation_id as int, crate::tensor::edge_key(v[i]), v[i].id)
}

/// One of `v[lo..]` has id `x`.
pub open spec fn node_listed_from(v: Seq<Node>, lo: int, x: u64) -> bool {
    exists|i: int| lo <= i < v.len() && (#[trigger] v[i]).id == x
}

/// Relation `q` holds edge `x` in cell `key` once the entries `ops[lo..]`
/// (creations) are undone on `a`, the last entry first.
pub open spec fn held_after(ops: Seq<UndoOp>, lo: int, a: Graph, q: int, key: (u64, u64), x: u64) -> bool
    decreases ops.len() - lo,
{
    if lo < 0 || lo >= ops.len() {
        crate::graph::holds(a, q, key, x)
    } else {
        held_after(ops, lo + 1, a, q, key, x) && !(ops[lo] is CreateEdges && recorded_from(
            ops[lo]->CreateEdges_0@,
            0,
            q,
            key,
            x,
        ))
    }
}

/// Some edge of `v` has id `x` and is held as recorded once `ops[lo..]` are undone on `a`.
pub open spec fn dropped_after(v: Seq<Edge>, ops: Seq<UndoOp>, lo: int, a: Graph, x: u64) -> bool {
    exists|i: int| 0 <= i < v.len() && (#[trigger] v[i]).id == x
        && held_after(ops, lo, a, v[i].relation_id as int, crate::tensor::edge_key(v[i]), v[i].id)
}

/// Node `x` has an edge once `ops[lo..]` are undone on `a`.
pub open spec fn incident_after(ops: Seq<UndoOp>, lo: int, a: Graph, x: u64) -> bool {
    exists|q: int, key: (u64, u64), y: u64| #[trigger] held_after(ops, lo, a, q, key, y) && (key.0 == x || key.1 == x)
}

/// Edge slot `x` is live once `ops[lo..]` are undone on `a`.
pub open spec fn edge_live_after(ops: Seq<UndoOp>, lo: int, a: Graph, x: u64) -> bool
    decreases ops.len() - lo,
{
    if lo < 0 || lo >= ops.len() {
        a.edge_pool().live(x)
    } else {
        edge_live_after(ops, lo + 1, a, x) && !(ops[lo] is CreateEdges && dropped_after(
            ops[lo]->CreateEdges_0@,
            ops,
            lo + 1,
            a,
            x,
        ))
    }
}

/// Node slot `x` is live once `ops[lo..]` are undone on `a`: a recorded node
/// goes when it has no edge at its turn.
pub open spec fn node_live_after(ops: Seq<UndoOp>, lo: int, a: Graph, x: u64) -> bool
    decreases ops.len() - lo,
{
    if lo < 0 || lo >= ops.len() {
        a.node_pool().live(x)
    } else {
        node_live_after(ops, lo + 1, a, x) && !(ops[lo] is CreateNodes && node_listed_from(ops[lo]->CreateNodes_0@, 0, x)
            && !incident_after(ops, lo + 1, a, x))
    }
}

/// A deleted node `m` can be recreated on `g`: its id leaves room and its
/// labels exist.
pub open spec fn node_restorable(g: Graph, m: (NodeID, AttributeSet, Vec<LabelID>)) -> bool {
    m.0 < u64::MAX - 2 && forall|k: int| 0 <= k < m.2@.len() ==> 0 <= #[trigger] m.2@[k] < g.label_matrices().len()
}

/// A deleted edge `m` can be recreated on `g` with `extra` more bundles at most.
pub open spec fn edge_restorable(g: Graph, m: (EdgeID, NodeID, NodeID, RelationID, AttributeSet), extra: int) -> bool {
    &&& 0 <= m.3 < g.tensors().len()
    &&& m.1 < g.dim()
    &&& m.2 < g.dim()
    &&& m.0 < MSB
    &&& g.tensors()[m.3 as int].slots() + extra < MSB - 1
}

/// The member `(node, labels)` can be replayed on `g`: the node fits the
/// matrices and every label exists.
pub open spec fn labels_apply(g: Graph, m: (Node, Vec<LabelID>)) -> bool {
    m.0.id < g.dim() && forall|k: int| 0 <= k < m.1@.len() ==> 0 <= #[trigger] m.1@[k] < g.label_matrices().len()
}

/// What undoing one entry does to the graph, as far as it is fixed by the
/// entry alone.
pub open spec fn entry_effect(op: UndoOp, a: Graph, b: Graph) -> bool {
    match op {
        UndoOp::CreateNodes(v) => nodes_undone(a, b, v@),
        UndoOp::CreateEdges(v) => edges_undone(a, b, v@),
        UndoOp::AddLabels(v) => forall|t: int, k: int|
            0 <= t < v@.len() && labels_apply(a, v@[t]) && 0 <= k < v@[t].1@.len()
                ==> !b.label_matrices()[(#[trigger] v@[t].1@[k]) as int]@.contains_key((v@[t].0.id, v@[t].0.id)),
        UndoOp::RemoveLabels(v) => forall|t: int, k: int|
            0 <= t < v@.len() && labels_apply(a, v@[t]) && 0 <= k < v@[t].1@.len()
                ==> b.label_matrices()[(#[trigger] v@[t].1@[k]) as int]@.contains_key((v@[t].0.id, v@[t].0.id)),
        UndoOp::AddSchema(id, t) => match t {
            SchemaType::Node => 0 <= id && id == a.label_matrices().len() - 1 && a.label_matrices()[id as int]@
                == Map::<(u64, u64), u64>::empty() ==> b.label_matrices().len() == a.label_matrices().len() - 1,
            SchemaType::Edge => 0 <= id && id == a.tensors().len() - 1 && a.tensors()[id as int]@ == Map::<
                (u64, u64),
                Set<u64>,
            >::empty() ==> b.tensors().len() == a.tensors().len() - 1,
        },
        UndoOp::DeleteNodes(v) => forall|t: int| 0 <= t < v@.len() && (a.node_pool().live((#[trigger] v@[t]).0)
            || node_restorable(a, v@[t])) ==> b.node_pool().live(v@[t].0),
        UndoOp::DeleteEdges(v) => forall|t: int| 0 <= t < v@.len() && (a.edge_pool().live((#[trigger] v@[t]).0)
            || edge_restorable(a, v@[t], v@.len() as int)) ==> b.edge_pool().live(v@[t].0),
        UndoOp::UpdateNodes(v) => v@.len() > 0 && a.node_pool().live(v@[0].0.id) ==> b.node_pool()@[v@[0].0.id as int]
            == Some(v@[0].1),
        UndoOp::UpdateEdges(v) => v@.len() > 0 && a.edge_pool().live(v@[0].0.id) ==> b.edge_pool()@[v@[0].0.id as int]
            == Some(v@[0].1),
        _ => true,
    }
}

/// The effect of an entry depends on the graph's pools, relations and labels only.
pub proof fn lemma_effect_frame(op: UndoOp, a: Graph, b1: Graph, b2: Graph)
    requires
        entry_effect(op, a, b1),
        b2.tensors() == b1.tensors(),
        b2.node_pool() == b1.node_pool(),
        b2.edge_pool() == b1.edge_pool(),
        b2.label_matrices() == b1.label_matrices(),
    ensures
        entry_effect(op, a, b2),
{
    match op {
        UndoOp::CreateNodes(v) => {
            assert forall|t: int| 0 <= t < v@.len() && b2.node_pool().live((#[trigger] v@[t]).id) implies incident(b2, v@[t].id) by {
                assert(incident(b1, v@[t].id));
                let (q, key, x) = choose|q: int, key: (u64, u64), x: u64| #[trigger] crate::graph::holds(b1, q, key, x) && (key.0 == v@[t].id || key.1 == v@[t].id);
                assert(crate::graph::holds(b2, q, key, x));
            }
        },
        UndoOp::CreateEdges(v) => {
            assert forall|t: int| 0 <= t < v@.len() implies !connected(b2, #[trigger] v@[t]) by {
                assert(!connected(b1, v@[t]));
            }
            assert forall|q: int, key: (u64, u64), x: u64| #[trigger] crate::graph::holds(b2, q, key, x) implies crate::graph::holds(a, q, key, x) by {
                assert(crate::graph::holds(b1, q, key, x));
            }
        },
        _ => {},
    }
}

/// A call that rolling back asks of the schema and index registry, which
/// lives outside the graph.
pub enum ContextAction {
    DeleteNodeFromIndices(Node),
    DeleteEdgeFromIndices(Edge),
    AddNodeToIndices(Node),
    AddEdgeToIndices(Edge),
    DeleteNodeFromIndicesByLabels(Node, Vec<LabelID>),
    RemoveSchema(SchemaID, SchemaType),
    RemoveAttribute(AttributeID),
    DeleteIndex(SchemaType, String, String, IndexFieldType),
    /// Free the attribute set given second, then re-index the node, which
    /// holds its earlier attributes again.
    RestoreNodeInIndices(Node, AttributeSet),
    /// Free the attribute set given second, then re-index the edge, which
    /// holds its earlier attributes again.
    RestoreEdgeInIndices(Edge, AttributeSet),
}

/// An action with the attribute set it frees (which the graph decides) left out.
pub open spec fn shape(a: ContextAction) -> ContextAction {
    match a {
        ContextAction::RestoreNodeInIndices(n, _) => ContextAction::RestoreNodeInIndices(n, 0),
        ContextAction::RestoreEdgeInIndices(e, _) => ContextAction::RestoreEdgeInIndices(e, 0),
        _ => a,
    }
}

/// Actions up to the freed attribute sets.
pub open spec fn shapes(s: Seq<ContextAction>) -> Seq<ContextAction> {
    s.map_values(|a: ContextAction| shape(a))
}

pub open spec fn rev_create_nodes(v: Seq<Node>) -> Seq<ContextAction>
    decreases v.len(),
{
    if v.len() == 0 {
        seq![]
    } else {
        seq![ContextAction::DeleteNodeFromIndices(v.last())] + rev_create_nodes(v.drop_last())
    }
}

pub open spec fn rev_create_edges(v: Seq<Edge>) -> Seq<ContextAction>
    decreases v.len(),
{
    if v.len() == 0 {
        seq![]
    } else {
        seq![ContextAction::DeleteEdgeFromIndices(v.last())] + rev_create_edges(v.drop_last())
    }
}

pub open spec fn rev_delete_nodes(v: Seq<(NodeID, AttributeSet, Vec<LabelID>)>) -> Seq<ContextAction>
    decreases v.len(),
{
    if v.len() == 0 {
        seq![]
    } else {
        seq![ContextAction::AddNodeToIndices(Node { id: v.last().0, attributes: v.last().1 })]
            + rev_delete_nodes(v.drop_last())
    }
}

pub open spec fn rev_delete_edges(v: Seq<(EdgeID, NodeID, NodeID, RelationID, AttributeSet)>) -> Seq<ContextAction>
    decreases v.len(),
{
    if v.len() == 0 {
        seq![]
    } else {
        seq![
            ContextAction::AddEdgeToIndices(
                Edge {
                    id: v.last().0,
                    src_id: v.last().1,
                    dest_id: v.last().2,
                    relation_id: v.last().3,
                    attributes: v.last().4,
                },
            ),
        ] + rev_delete_edges(v.drop_last())
    }
}

pub open spec fn rev_update_nodes(v: Seq<(Node, AttributeSet)>) -> Seq<ContextAction>
    decreases v.len(),
{
    if v.len() == 0 {
        seq![]
    } else {
        seq![ContextAction::RestoreNodeInIndices(Node { id: v.last().0.id, attributes: v.last().1 }, 0)]
            + rev_update_nodes(v.drop_last())
    }
}

pub open spec fn rev_update_edges(v: Seq<(Edge, AttributeSet)>) -> Seq<ContextAction>
    decreases v.len(),
{
    if v.len() == 0 {
        seq![]
    } else {
        seq![
            ContextAction::RestoreEdgeInIndices(
                Edge {
                    id: v.last().0.id,
                    src_id: v.last().0.src_id,
                    dest_id: v.last().0.dest_id,
                    relation_id: v.last().0.relation_id,
                    attributes: v.last().1,
                },
                0,
            ),
        ] + rev_update_edges(v.drop_last())
    }
}

pub open spec fn rev_add_labels(v: Seq<(Node, Vec<LabelID>)>) -> Seq<ContextAction>
    decreases v.len(),
{
    if v.len() == 0 {
        seq![]
    } else {
        seq![ContextAction::DeleteNodeFromIndicesByLabels(v.last().0, v.last().1)] + rev_add_labels(v.drop_last())
    }
}

pub open spec fn rev_remove_labels(v: Seq<(Node, Vec<LabelID>)>) -> Seq<ContextAction>
    decreases v.len(),
{
    if v.len() == 0 {
        seq![]
    } else {
        seq![ContextAction::AddNodeToIndices(v.last().0)] + rev_remove_labels(v.drop_last())
    }
}

/// The registry calls that undoing one entry asks for: one per member, the
/// members last to first.
pub open spec fn entry_actions(op: UndoOp) -> Seq<ContextAction> {
    match op {
        UndoOp::CreateNodes(v) => rev_create_nodes(v@),
        UndoOp::CreateEdges(v) => rev_create_edges(v@),
        UndoOp::DeleteNodes(v) => rev_delete_nodes(v@),
        UndoOp::DeleteEdges(v) => rev_delete_edges(v@),
        UndoOp::UpdateNodes(v) => rev_update_nodes(v@),
        UndoOp::UpdateEdges(v) => rev_update_edges(v@),
        UndoOp::AddLabels(v) => rev_add_labels(v@),
        UndoOp::RemoveLabels(v) => rev_remove_labels(v@),
        UndoOp::AddSchema(id, t) => seq![ContextAction::RemoveSchema(id, t)],
        UndoOp::AddAttribute(id) => seq![ContextAction::RemoveAttribute(id)],
        UndoOp::CreateIndex(t, l, f, ft) => seq![ContextAction::DeleteIndex(t, l, f, ft)],
    }
}

/// The registry calls of rolling back `ops`: the last entry's first.
pub open spec fn log_actions(ops: Seq<UndoOp>) -> Seq<ContextAction>
    decreases ops.len(),
{
    if ops.len() == 0 {
        seq![]
    } else {
        entry_actions(ops.last()) + log_actions(ops.drop_last())
    }
}

/// Appending an action appends its shape.
pub proof fn lemma_push_shape(s: Seq<ContextAction>, a: ContextAction, rest: Seq<ContextAction>)
    ensures
        shapes(s.push(a)) + rest == shapes(s) + (seq![shape(a)] + rest),
{
    assert(shapes(s.push(a)) =~= shapes(s).push(shape(a)));
    assert(shapes(s.push(a)) + rest =~= shapes(s) + (seq![shape(a)] + rest));
}

/// The inverse of every mutation of one query, replayed backwards on rollback.
pub struct UndoLog {
    ops: Vec<UndoOp>,
}

impl UndoLog {
    /// The entries, oldest first.
    pub closed spec fn entries(&self) -> Seq<UndoOp> {
        self.ops@
    }

    pub fn new() -> (r: Self)
        ensures
            r.entries().len() == 0,
    {
        UndoLog { ops: Vec::new() }
    }

    /// Number of entries (a group of coalesced operations counts once).
    pub fn len(&self) -> (r: usize)
        ensures
            r == self.entries().len(),
    {
        self.ops.len()
    }

    /// Records the creation of `node`.
    pub fn create_node(&mut self, node: Node)
        ensures
            old(self).entries().len() > 0 && old(self).entries().last() is CreateNodes ==> final(self).entries().len()
                == old(self).entries().len() && final(self).entries().drop_last() == old(self).entries().drop_last()
                && final(self).entries().last()->CreateNodes_0@ == old(self).entries().last()->CreateNodes_0@.push(node),
            !(old(self).entries().len() > 0 && old(self).entries().last() is CreateNodes) ==> final(self).entries().len()
                == old(self).entries().len() + 1 && final(self).entries().drop_last() == old(self).entries()
                && final(self).entries().last()->CreateNodes_0@ == seq![node],
            final(self).entries().last() is CreateNodes,
            final(self).entries().last()->CreateNodes_0@.last() == node,
    {
        let n = self.ops.len();
        if n > 0 {
            if let UndoOp::CreateNodes(nodes) = &mut self.ops[n - 1] {
                nodes.push(node);
                assert(self.ops@.drop_last() =~= old(self).ops@.drop_last());
                return ;
            }
        }
        let mut v: Vec<Node> = Vec::new();
        v.push(node);
        self.ops.push(UndoOp::CreateNodes(v));
        assert(self.ops@.drop_last() =~= old(self).ops@);
    }

    /// Records the creation of `edge`.
    pub fn create_edge(&mut self, edge: Edge)
        ensures
            old(self).entries().len() > 0 && old(self).entries().last() is CreateEdges ==> final(self).entries().len()
                == old(self).entries().len() && final(self).entries().drop_last() == old(self).entries().drop_last()
                && final(self).entries().last()->CreateEdges_0@ == old(self).entries().last()->CreateEdges_0@.push(edge),
            !(old(self).entries().len() > 0 && old(self).entries().last() is CreateEdges) ==> final(self).entries().len()
                == old(self).entries().len() + 1 && final(self).entries().drop_last() == old(self).entries()
                && final(self).entries().last()->CreateEdges_0@ == seq![edge],
            final(self).entries().last() is CreateEdges,
            final(self).entries().last()->CreateEdges_0@.last() == edge,
    {
        let n = self.ops.len();
        if n > 0 {
            if let UndoOp::CreateEdges(edges) = &mut self.ops[n - 1] {
                edges.push(edge);
                assert(self.ops@.drop_last() =~= old(self).ops@.drop_last());
                return ;
            }
        }
        let mut v: Vec<Edge> = Vec::new();
        v.push(edge);
        self.ops.push(UndoOp::CreateEdges(v));
        assert(self.ops@.drop_last() =~= old(self).ops@);
    }

    /// Records the deletion of node `node_id`, with its attribute set and labels.
    pub fn delete_node(&mut self, node_id: NodeID, set: AttributeSet, labels: Vec<LabelID>)
        ensures
            old(self).entries().len() > 0 && old(self).entries().last() is DeleteNodes ==> final(self).entries().len()
                == old(self).entries().len() && final(self).entries().drop_last() == old(self).entries().drop_last()
                && final(self).entries().last()->DeleteNodes_0@ == old(self).entries().last()->DeleteNodes_0@.push((node_id, set, labels)),
            !(old(self).entries().len() > 0 && old(self).entries().last() is DeleteNodes) ==> final(self).entries().len()
                == old(self).entries().len() + 1 && final(self).entries().drop_last() == old(self).entries()
                && final(self).entries().last()->DeleteNodes_0@ == seq![(node_id, set, labels)],
            final(self).entries().last() is DeleteNodes,
    {
        let n = self.ops.len();
        if n > 0 {
            if let UndoOp::DeleteNodes(v) = &mut self.ops[n - 1] {
                v.push((node_id, set, labels));
                assert(self.ops@.drop_last() =~= old(self).ops@.drop_last());
                return ;
            }
        }
        let mut v: Vec<(NodeID, AttributeSet, Vec<LabelID>)> = Vec::new();
        v.push((node_id, set, labels));
        self.ops.push(UndoOp::DeleteNodes(v));
        assert(self.ops@.drop_last() =~= old(self).ops@);
    }

    /// Records the deletion of edge `edge_id` with its endpoints, relation and attribute set.
    pub fn delete_edge(
        &mut self,
        edge_id: EdgeID,
        src_id: NodeID,
        dest_id: NodeID,
        relation_id: RelationID,
        set: AttributeSet,
    )
        ensures
            old(self).entries().len() > 0 && old(self).entries().last() is DeleteEdges ==> final(self).entries().len()
                == old(self).entries().len() && final(self).entries().drop_last() == old(self).entries().drop_last()
                && final(self).entries().last()->DeleteEdges_0@ == old(self).entries().last()->DeleteEdges_0@.push((edge_id, src_id, dest_id, relation_id, set)),
            !(old(self).entries().len() > 0 && old(self).entries().last() is DeleteEdges) ==> final(self).entries().len()
                == old(self).entries().len() + 1 && final(self).entries().drop_last() == old(self).entries()
                && final(self).entries().last()->DeleteEdges_0@ == seq![(edge_id, src_id, dest_id, relation_id, set)],
            final(self).entries().last() is DeleteEdges,
    {
        let n = self.ops.len();
        if n > 0 {
            if let UndoOp::DeleteEdges(v) = &mut self.ops[n - 1] {
                v.push((edge_id, src_id, dest_id, relation_id, set));
                assert(self.ops@.drop_last() =~= old(self).ops@.drop_last());
                return ;
            }
        }
        let mut v: Vec<(EdgeID, NodeID, NodeID, RelationID, AttributeSet)> = Vec::new();
        v.push((edge_id, src_id, dest_id, relation_id, set));
        self.ops.push(UndoOp::DeleteEdges(v));
        assert(self.ops@.drop_last() =~= old(self).ops@);
    }

    /// Records that `node`'s attributes replaced `old_set`.
    pub fn update_node(&mut self, node: Node, old_set: AttributeSet)
        ensures
            old(self).entries().len() > 0 && old(self).entries().last() is UpdateNodes ==> final(self).entries().len()
                == old(self).entries().len() && final(self).entries().drop_last() == old(self).entries().drop_last()
                && final(self).entries().last()->UpdateNodes_0@ == old(self).entries().last()->UpdateNodes_0@.push((node, old_set)),
            !(old(self).entries().len() > 0 && old(self).entries().last() is UpdateNodes) ==> final(self).entries().len()
                == old(self).entries().len() + 1 && final(self).entries().drop_last() == old(self).entries()
                && final(self).entries().last()->UpdateNodes_0@ == seq![(node, old_set)],
            final(self).entries().last() is UpdateNodes,
    {
        let n = self.ops.len();
        if n > 0 {
            if let UndoOp::UpdateNodes(v) = &mut self.ops[n - 1] {
                v.push((node, old_set));
                assert(self.ops@.drop_last() =~= old(self).ops@.drop_last());
                return ;
            }
        }
        let mut v: Vec<(Node, AttributeSet)> = Vec::new();
        v.push((node, old_set));
        self.ops.push(UndoOp::UpdateNodes(v));
        assert(self.ops@.drop_last() =~= old(self).ops@);
    }

    /// Records that `edge`'s attributes replaced `old_set`.
    pub fn update_edge(&mut self, edge: Edge, old_set: AttributeSet)
        ensures
            old(self).entries().len() > 0 && old(self).entries().last() is UpdateEdges ==> final(self).entries().len()
                == old(self).entries().len() && final(self).entries().drop_last() == old(self).entries().drop_last()
                && final(self).entries().last()->UpdateEdges_0@ == old(self).entries().last()->UpdateEdges_0@.push((edge, old_set)),
            !(old(self).entries().len() > 0 && old(self).entries().last() is UpdateEdges) ==> final(self).entries().len()
                == old(self).entries().len() + 1 && final(self).entries().drop_last() == old(self).entries()
                && final(self).entries().last()->UpdateEdges_0@ == seq![(edge, old_set)],
            final(self).entries().last() is UpdateEdges,
    {
        let n = self.ops.len();
        if n > 0 {
            if let UndoOp::UpdateEdges(v) = &mut self.ops[n - 1] {
                v.push((edge, old_set));
                assert(self.ops@.drop_last() =~= old(self).ops@.drop_last());
                return ;
            }
        }
        let mut v: Vec<(Edge, AttributeSet)> = Vec::new();
        v.push((edge, old_set));
        self.ops.push(UndoOp::UpdateEdges(v));
        assert(self.ops@.drop_last() =~= old(self).ops@);
    }

    /// Records that `labels` were added to `node`.
    pub fn add_labels(&mut self, node: Node, labels: Vec<LabelID>)
        ensures
            old(self).entries().len() > 0 && old(self).entries().last() is AddLabels ==> final(self).entries().len()
                == old(self).entries().len() && final(self).entries().drop_last() == old(self).entries().drop_last()
                && final(self).entries().last()->AddLabels_0@ == old(self).entries().last()->AddLabels_0@.push((node, labels)),
            !(old(self).entries().len() > 0 && old(self).entries().last() is AddLabels) ==> final(self).entries().len()
                == old(self).entries().len() + 1 && final(self).entries().drop_last() == old(self).entries()
                && final(self).entries().last()->AddLabels_0@ == seq![(node, labels)],
            final(self).entries().last() is AddLabels,
    {
        let n = self.ops.len();
        if n > 0 {
            if let UndoOp::AddLabels(v) = &mut self.ops[n - 1] {
                v.push((node, labels));
                assert(self.ops@.drop_last() =~= old(self).ops@.drop_last());
                return ;
            }
        }
        let mut v: Vec<(Node, Vec<LabelID>)> = Vec::new();
        v.push((node, labels));
        self.ops.push(UndoOp::AddLabels(v));
        assert(self.ops@.drop_last() =~= old(self).ops@);
    }

    /// Records that `labels` were taken off `node`.
    pub fn remove_labels(&mut self, node: Node, labels: Vec<LabelID>)
        ensures
            old(self).entries().len() > 0 && old(self).entries().last() is RemoveLabels ==> final(self).entries().len()
                == old(self).entries().len() && final(self).entries().drop_last() == old(self).entries().drop_last()
                && final(self).entries().last()->RemoveLabels_0@ == old(self).entries().last()->RemoveLabels_0@.push((node, labels)),
            !(old(self).entries().len() > 0 && old(self).entries().last() is RemoveLabels) ==> final(self).entries().len()
                == old(self).entries().len() + 1 && final(self).entries().drop_last() == old(self).entries()
                && final(self).entries().last()->RemoveLabels_0@ == seq![(node, labels)],
            final(self).entries().last() is RemoveLabels,
    {
        let n = self.ops.len();
        if n > 0 {
            if let UndoOp::RemoveLabels(v) = &mut self.ops[n - 1] {
                v.push((node, labels));
                assert(self.ops@.drop_last() =~= old(self).ops@.drop_last());
                return ;
            }
        }
        let mut v: Vec<(Node, Vec<LabelID>)> = Vec::new();
        v.push((node, labels));
        self.ops.push(UndoOp::RemoveLabels(v));
        assert(self.ops@.drop_last() =~= old(self).ops@);
    }

    /// Records that schema `schema_id` was added; never coalesced.
    pub fn add_schema(&mut self, schema_id: SchemaID, schema_type: SchemaType)
        ensures
            final(self).entries() == old(self).entries().push(UndoOp::AddSchema(schema_id, schema_type)),
    {
        self.ops.push(UndoOp::AddSchema(schema_id, schema_type));
    }

    /// Records that attribute `attribute_id` was added; never coalesced.
    pub fn add_attribute(&mut self, attribute_id: AttributeID)
        ensures
            final(self).entries() == old(self).entries().push(UndoOp::AddAttribute(attribute_id)),
    {
        self.ops.push(UndoOp::AddAttribute(attribute_id));
    }

    /// Records that an index was created; never coalesced.
    pub fn create_index(&mut self, schema_type: SchemaType, label: String, field: String, index_field_type: IndexFieldType)
        ensures
            final(self).entries().len() == old(self).entries().len() + 1,
            final(self).entries().drop_last() == old(self).entries(),
            final(self).entries().last() is CreateIndex,
            final(self).entries().last() == UndoOp::CreateIndex(schema_type, label, field, index_field_type),
    {
        self.ops.push(UndoOp::CreateIndex(schema_type, label, field, index_field_type));
        assert(self.ops@.drop_last() =~= old(self).ops@);
    }

    /// Replays the log backwards against `g`, each group in reverse order, and
    /// empties it. Returns, in order, the calls that the schema and index
    /// registry must make: exactly `log_actions` of the entries, up to the
    /// attribute sets to free, which the graph holds. A graph step that does
    /// not apply to the graph as it stands (an entity already gone, a label
    /// that is not the last) is passed over; its registry call is still made.
    pub fn rollback(&mut self, g: &mut Graph) -> (actions: Vec<ContextAction>)
        requires
            old(g).wf(),
        ensures
            final(g).wf(),
            final(self).entries().len() == 0,
            shapes(actions@) == log_actions(old(self).entries()),
            old(self).entries().len() == 1 ==> entry_effect(old(self).entries()[0], *old(g), *final(g)),
            creation_only(old(self).entries()) ==> forall|i: int, t: int|
                0 <= i < old(self).entries().len() && old(self).entries()[i] is CreateEdges && 0 <= t
                    < old(self).entries()[i]->CreateEdges_0@.len() ==> !connected(*final(g), #[trigger] old(self).entries()[i]->CreateEdges_0@[t]),
            creation_only(old(self).entries()) && nodes_first(old(self).entries()) ==> forall|i: int, t: int|
                0 <= i < old(self).entries().len() && old(self).entries()[i] is CreateNodes && 0 <= t
                    < old(self).entries()[i]->CreateNodes_0@.len() && final(g).node_pool().live(
                    (#[trigger] old(self).entries()[i]->CreateNodes_0@[t]).id,
                ) ==> incident(*final(g), old(self).entries()[i]->CreateNodes_0@[t].id),
            creation_only(old(self).entries()) ==> forall|q: int, key: (u64, u64), x: u64| #[trigger] crate::graph::holds(*final(g), q, key, x)
                <==> held_after(old(self).entries(), 0, *old(g), q, key, x),
            creation_only(old(self).entries()) ==> forall|x: u64| #[trigger] final(g).edge_pool().live(x)
                <==> edge_live_after(old(self).entries(), 0, *old(g), x),
            creation_only(old(self).entries()) ==> forall|x: u64| #[trigger] final(g).node_pool().live(x)
                <==> node_live_after(old(self).entries(), 0, *old(g), x),
    {
        let mut actions: Vec<ContextAction> = Vec::new();
        let ghost orig = self.ops@;
        proof {
            assert(shapes(actions@) + log_actions(self.ops@) =~= log_actions(orig));
        }
        proof {
            assert(self.ops@ =~= orig.take(orig.len() as int));
            assert forall|q: int, key: (u64, u64), x: u64| #[trigger] crate::graph::holds(*g, q, key, x)
                <==> held_after(orig, orig.len() as int, *old(g), q, key, x) by {}
            assert forall|x: u64| #[trigger] g.edge_pool().live(x) <==> edge_live_after(orig, orig.len() as int, *old(g), x) by {}
            assert forall|x: u64| #[trigger] g.node_pool().live(x) <==> node_live_after(orig, orig.len() as int, *old(g), x) by {}
        }
        while self.ops.len() > 0
            invariant
                g.wf(),
                shapes(actions@) + log_actions(self.ops@) == log_actions(orig),
                self.ops@.len() <= orig.len(),
                self.ops@ == orig.take(self.ops@.len() as int),
                self.ops@.len() == orig.len() ==> *g == *old(g),
                orig.len() == 1 && self.ops@.len() == 0 ==> entry_effect(orig[0], *old(g), *g),
                creation_only(orig) ==> forall|i: int, t: int|
                    self.ops@.len() <= i < orig.len() && orig[i] is CreateEdges && 0 <= t < orig[i]->CreateEdges_0@.len()
                        ==> !connected(*g, #[trigger] orig[i]->CreateEdges_0@[t]),
                creation_only(orig) && nodes_first(orig) ==> forall|i: int, t: int|
                    self.ops@.len() <= i < orig.len() && orig[i] is CreateNodes && 0 <= t < orig[i]->CreateNodes_0@.len()
                        && g.node_pool().live((#[trigger] orig[i]->CreateNodes_0@[t]).id) ==> incident(*g, orig[i]->CreateNodes_0@[t].id),
                creation_only(orig) ==> forall|q: int, key: (u64, u64), x: u64| #[trigger] crate::graph::holds(*g, q, key, x)
                    <==> held_after(orig, self.ops@.len() as int, *old(g), q, key, x),
                creation_only(orig) ==> forall|x: u64| #[trigger] g.edge_pool().live(x)
                    <==> edge_live_after(orig, self.ops@.len() as int, *old(g), x),
                creation_only(orig) ==> forall|x: u64| #[trigger] g.node_pool().live(x)
                    <==> node_live_after(orig, self.ops@.len() as int, *old(g), x),
            decreases self.ops@.len(),
        {
            let ghost before = actions@;
            let ghost ops0 = self.ops@;
            let ghost g0 = *g;
            let op = self.ops.pop().unwrap();
            proof {
                assert(op == ops0.last());
                assert(self.ops@ == ops0.drop_last());
                assert(op == orig[self.ops@.len() as int]);
                assert(self.ops@ =~= orig.take(self.ops@.len() as int));
            }
            let ghost eop = entry_actions(op);
            let ghost gop = op;
            match op {
                UndoOp::CreateNodes(v) => undo_create_nodes(g, v, &mut actions),
                UndoOp::CreateEdges(v) => undo_create_edges(g, v, &mut actions),
                UndoOp::DeleteNodes(v) => undo_delete_nodes(g, v, &mut actions),
                UndoOp::DeleteEdges(v) => undo_delete_edges(g, v, &mut actions),
                UndoOp::UpdateNodes(v) => undo_update_nodes(g, v, &mut actions),
                UndoOp::UpdateEdges(v) => undo_update_edges(g, v, &mut actions),
                UndoOp::AddLabels(v) => undo_add_labels(g, v, &mut actions),
                UndoOp::RemoveLabels(v) => undo_remove_labels(g, v, &mut actions),
                UndoOp::AddSchema(schema_id, schema_type) => {
                    actions.push(ContextAction::RemoveSchema(schema_id, schema_type));
                    proof {
                        lemma_push_shape(before, ContextAction::RemoveSchema(schema_id, schema_type), seq![]);
                    }
                    match schema_type {
                        SchemaType::Node => {
                            let count = g.label_type_count();
                            if schema_id >= 0 && schema_id == count - 1 && g.label_is_empty(schema_id as usize) {
                                g.remove_label(schema_id);
                            }
                        },
                        SchemaType::Edge => {
                            let count = g.relation_type_count();
                            if schema_id >= 0 && schema_id == count - 1 && g.relation_is_empty(schema_id as usize) {
                                g.remove_relation(schema_id);
                            }
                        },
                    }
                    assert(entry_effect(gop, g0, *g));
                },
                UndoOp::AddAttribute(attribute_id) => {
                    actions.push(ContextAction::RemoveAttribute(attribute_id));
                    proof {
                        lemma_push_shape(before, ContextAction::RemoveAttribute(attribute_id), seq![]);
                    }
                },
                UndoOp::CreateIndex(schema_type, label, field, index_field_type) => {
                    let ghost act = ContextAction::DeleteIndex(schema_type, label, field, index_field_type);
                    actions.push(ContextAction::DeleteIndex(schema_type, label, field, index_field_type));
                    proof {
                        lemma_push_shape(before, act, seq![]);
                    }
                },
            }
            proof {
                assert(entry_effect(gop, g0, *g));
                let k = self.ops@.len() as int;
                if creation_only(orig) {
                    assert(orig[k] is CreateNodes || orig[k] is CreateEdges);
                    assert(forall|q: int, key: (u64, u64), x: u64| #[trigger] crate::graph::holds(g0, q, key, x)
                        <==> held_after(orig, k + 1, *old(g), q, key, x));
                    assert(forall|x: u64| #[trigger] g0.edge_pool().live(x) <==> edge_live_after(orig, k + 1, *old(g), x));
                    assert(forall|x: u64| #[trigger] g0.node_pool().live(x) <==> node_live_after(orig, k + 1, *old(g), x));
                    if orig[k] is CreateEdges {
                        let v = orig[k]->CreateEdges_0@;
                        assert forall|q: int, key: (u64, u64), x: u64| #[trigger] crate::graph::holds(*g, q, key, x)
                            <==> held_after(orig, k, *old(g), q, key, x) by {
                            assert(crate::graph::holds(g0, q, key, x) <==> held_after(orig, k + 1, *old(g), q, key, x));
                        }
                        assert forall|x: u64| #[trigger] g.edge_pool().live(x) <==> edge_live_after(orig, k, *old(g), x) by {
                            assert(g0.edge_pool().live(x) <==> edge_live_after(orig, k + 1, *old(g), x));
                            assert(dropped_from(v, 0, g0, x) == dropped_after(v, orig, k + 1, *old(g), x)) by {
                                if dropped_from(v, 0, g0, x) {
                                    let i = choose|i: int| 0 <= i < v.len() && (#[trigger] v[i]).id == x
                                        && crate::graph::holds(g0, v[i].relation_id as int, crate::tensor::edge_key(v[i]), v[i].id);
                                    assert(held_after(orig, k + 1, *old(g), v[i].relation_id as int, crate::tensor::edge_key(v[i]), v[i].id));
                                }
                                if dropped_after(v, orig, k + 1, *old(g), x) {
                                    let i = choose|i: int| 0 <= i < v.len() && (#[trigger] v[i]).id == x
                                        && held_after(orig, k + 1, *old(g), v[i].relation_id as int, crate::tensor::edge_key(v[i]), v[i].id);
                                    assert(crate::graph::holds(g0, v[i].relation_id as int, crate::tensor::edge_key(v[i]), v[i].id));
                                }
                            }
                        }
                        assert forall|x: u64| #[trigger] g.node_pool().live(x) <==> node_live_after(orig, k, *old(g), x) by {
                            assert(g0.node_pool().live(x) <==> node_live_after(orig, k + 1, *old(g), x));
                        }
                    } else {
                        let v = orig[k]->CreateNodes_0@;
                        assert forall|q: int, key: (u64, u64), x: u64| #[trigger] crate::graph::holds(*g, q, key, x)
                            <==> held_after(orig, k, *old(g), q, key, x) by {
                            assert(crate::graph::holds(g0, q, key, x) <==> held_after(orig, k + 1, *old(g), q, key, x));
                        }
                        assert forall|x: u64| #[trigger] g.edge_pool().live(x) <==> edge_live_after(orig, k, *old(g), x) by {
                            assert(g0.edge_pool().live(x) <==> edge_live_after(orig, k + 1, *old(g), x));
                        }
                        assert forall|x: u64| #[trigger] g.node_pool().live(x) <==> node_live_after(orig, k, *old(g), x) by {
                            assert(g0.node_pool().live(x) <==> node_live_after(orig, k + 1, *old(g), x));
                            assert(incident(g0, x) == incident_after(orig, k + 1, *old(g), x)) by {
                                if incident(g0, x) {
                                    let (q, key, y) = choose|q: int, key: (u64, u64), y: u64| #[trigger] crate::graph::holds(g0, q, key, y) && (key.0 == x || key.1 == x);
                                    assert(held_after(orig, k + 1, *old(g), q, key, y));
                                }
                                if incident_after(orig, k + 1, *old(g), x) {
                                    let (q, key, y) = choose|q: int, key: (u64, u64), y: u64| #[trigger] held_after(orig, k + 1, *old(g), q, key, y) && (key.0 == x || key.1 == x);
                                    assert(crate::graph::holds(g0, q, key, y));
                                }
                            }
                        }
                    }
                    if orig[k] is CreateEdges {
                        assert forall|i: int, t: int|
                            k <= i < orig.len() && orig[i] is CreateEdges && 0 <= t < orig[i]->CreateEdges_0@.len()
                                implies !connected(*g, #[trigger] orig[i]->CreateEdges_0@[t]) by {
                            if i > k {
                                assert(!connected(g0, orig[i]->CreateEdges_0@[t]));
                            }
                        }
                        if nodes_first(orig) {
                            assert forall|i: int, t: int|
                                k <= i < orig.len() && orig[i] is CreateNodes && 0 <= t < orig[i]->CreateNodes_0@.len()
                                    && g.node_pool().live((#[trigger] orig[i]->CreateNodes_0@[t]).id) implies incident(*g, orig[i]->CreateNodes_0@[t].id) by {
                                assert(orig[k] is CreateEdges);
                            }
                        }
                    } else {
                        assert forall|i: int, t: int|
                            k <= i < orig.len() && orig[i] is CreateEdges && 0 <= t < orig[i]->CreateEdges_0@.len()
                                implies !connected(*g, #[trigger] orig[i]->CreateEdges_0@[t]) by {
                            assert(!connected(g0, orig[i]->CreateEdges_0@[t]));
                        }
                        if nodes_first(orig) {
                            assert forall|i: int, t: int|
                                k <= i < orig.len() && orig[i] is CreateNodes && 0 <= t < orig[i]->CreateNodes_0@.len()
                                    && g.node_pool().live((#[trigger] orig[i]->CreateNodes_0@[t]).id) implies incident(*g, orig[i]->CreateNodes_0@[t].id) by {
                                if i > k {
                                    let n = orig[i]->CreateNodes_0@[t];
                                    assert(g0.node_pool().live(n.id));
                                    assert(incident(g0, n.id));
                                    let (q, key, x) = choose|q: int, key: (u64, u64), x: u64| #[trigger] crate::graph::holds(g0, q, key, x) && (key.0 == n.id || key.1 == n.id);
                                    assert(crate::graph::holds(*g, q, key, x));
                                }
                            }
                        }
                    }
                }
                assert(shapes(actions@) == shapes(before) + eop);
                assert(log_actions(ops0) == eop + log_actions(ops0.drop_last()));
                assert(shapes(actions@) + log_actions(self.ops@) =~= shapes(before) + log_actions(ops0));
            }
        }
        proof {
            assert(log_actions(self.ops@) =~= Seq::<ContextAction>::empty());
            assert(shapes(actions@) =~= shapes(actions@) + log_actions(self.ops@));
        }
        actions
    }
}

fn undo_create_nodes(g: &mut Graph, v: Vec<Node>, actions: &mut Vec<ContextAction>)
    requires
        old(g).wf(),
    ensures
        final(g).wf(),
        nodes_undone(*old(g), *final(g), v@),
        forall|x: u64| #[trigger] final(g).node_pool().live(x) <==> old(g).node_pool().live(x)
            && !(node_listed_from(v@, 0, x) && !incident(*old(g), x)),
        shapes(final(actions)@) == shapes(old(actions)@) + rev_create_nodes(v@),
{
    let ghost orig = v@;
    let mut v = v;
    proof {
        assert(shapes(actions@) + rev_create_nodes(v@) =~= shapes(old(actions)@) + rev_create_nodes(orig));
        assert(v@ =~= orig.take(v@.len() as int));
        assert forall|x: u64| !node_listed_from(orig, orig.len() as int, x) by {}
    }
    while v.len() > 0
        invariant
            g.wf(),
            shapes(actions@) + rev_create_nodes(v@) == shapes(old(actions)@) + rev_create_nodes(orig),
            v@.len() <= orig.len(),
            v@ == orig.take(v@.len() as int),
            forall|t: int| v@.len() <= t < orig.len() && g.node_pool().live((#[trigger] orig[t]).id) ==> incident(*g, orig[t].id),
            forall|x: u64| #[trigger] g.node_pool().live(x) ==> old(g).node_pool().live(x),
            g.tensors() == old(g).tensors(),
            g.edge_pool() == old(g).edge_pool(),
            forall|x: u64| #[trigger] g.node_pool().live(x) <==> old(g).node_pool().live(x)
                && !(node_listed_from(orig, v@.len() as int, x) && !incident(*old(g), x)),
        decreases v@.len(),
    {
        let ghost before = actions@;
        let ghost v0 = v@;
        let ghost g0 = *g;
        let node = v.pop().unwrap();
        actions.push(ContextAction::DeleteNodeFromIndices(node));
        proof {
            lemma_push_shape(before, ContextAction::DeleteNodeFromIndices(node), rev_create_nodes(v@));
            assert(v@ == v0.drop_last() && node == v0.last());
            assert(seq![ContextAction::DeleteNodeFromIndices(node)] + rev_create_nodes(v@) == rev_create_nodes(v0));
        }
        let live0 = g.get_node(node.id).is_some();
        let iso = if live0 { g.node_is_isolated(node.id) } else { false };
        proof {
            if iso {
                assert(!incident(*g, node.id)) by {
                    if incident(*g, node.id) {
                        let (q, key, y) = choose|q: int, key: (u64, u64), y: u64| #[trigger] crate::graph::holds(*g, q, key, y) && (key.0 == node.id || key.1 == node.id);
                        assert(g.tensors()[q]@.contains_key(key));
                    }
                }
            }
            if live0 && !iso {
                assert(incident(*g, node.id)) by {
                    let (q, key) = choose|q: int, key: (u64, u64)| 0 <= q < g.tensors().len() && #[trigger] g.tensors()[q]@.contains_key(key)
                        && !(key.0 != node.id && key.1 != node.id);
                    g.lemma_tensors_wf();
                    g.tensors()[q].lemma_shape();
                    let cell = g.tensors()[q]@[key];
                    let y = cell.choose();
                    assert(cell.contains(y)) by {
                        if !cell.contains(y) {
                            assert(cell =~= Set::<u64>::empty());
                        }
                    }
                    assert(crate::graph::holds(*g, q, key, y));
                }
            }
        }
        if live0 && iso {
            let mut one: Vec<Node> = Vec::new();
            one.push(node);
            proof {
                assert(one@ == seq![node]);
            }
            g.delete_nodes(one.as_slice());
        }
        proof {
            let k = v@.len() as int;
            assert(v@ =~= orig.take(k));
            assert(orig[k] == node);
            assert forall|x: u64| incident(g0, x) == incident(*old(g), x) by {
                if incident(g0, x) {
                    let (q, key, y) = choose|q: int, key: (u64, u64), y: u64| #[trigger] crate::graph::holds(g0, q, key, y) && (key.0 == x || key.1 == x);
                    assert(crate::graph::holds(*old(g), q, key, y));
                }
                if incident(*old(g), x) {
                    let (q, key, y) = choose|q: int, key: (u64, u64), y: u64| #[trigger] crate::graph::holds(*old(g), q, key, y) && (key.0 == x || key.1 == x);
                    assert(crate::graph::holds(g0, q, key, y));
                }
            }
            assert forall|x: u64| node_listed_from(orig, k, x) == (node_listed_from(orig, k + 1, x) || node.id == x) by {
                if node_listed_from(orig, k, x) && node.id != x {
                    let i = choose|i: int| k <= i < orig.len() && (#[trigger] orig[i]).id == x;
                    assert(i != k);
                }
                if node_listed_from(orig, k + 1, x) {
                    let i = choose|i: int| k + 1 <= i < orig.len() && (#[trigger] orig[i]).id == x;
                }
                if node.id == x {
                    assert(orig[k].id == x);
                }
            }
            assert forall|x: u64| #[trigger] g.node_pool().live(x) <==> old(g).node_pool().live(x)
                && !(node_listed_from(orig, k, x) && !incident(*old(g), x)) by {
                assert(g0.node_pool().live(x) <==> old(g).node_pool().live(x)
                    && !(node_listed_from(orig, k + 1, x) && !incident(*old(g), x)));
                assert(g.node_pool()@.len() == g0.node_pool()@.len());
                if x != node.id {
                    if g.node_pool()@ != g0.node_pool()@ && (x as int) < g0.node_pool()@.len() {
                        g.lemma_pool_bound();
                        assert(g.node_pool()@[x as int] == if crate::graph::listed_node(seq![node], 1, x) { None } else { g0.node_pool()@[x as int] });
                        assert(!crate::graph::listed_node(seq![node], 1, x)) by {
                            if crate::graph::listed_node(seq![node], 1, x) {
                                let t = choose|t: int| 0 <= t < 1 && (#[trigger] seq![node][t]).id == x;
                                assert(seq![node][t] == node);
                            }
                        }
                    }
                } else {
                    if live0 && iso {
                        assert(crate::graph::listed_node(seq![node], 1, x)) by {
                            assert(seq![node][0] == node);
                        }
                        assert(!g.node_pool().live(x));
                        assert(!incident(*old(g), x));
                    } else {
                        assert(g.node_pool()@ == g0.node_pool()@);
                    }
                }
            }
            assert forall|x: u64| #[trigger] g.node_pool().live(x) implies g0.node_pool().live(x) by {
                if !(x == node.id) {
                } else {
                }
                if g.node_pool()@ != g0.node_pool()@ {
                    assert(g.node_pool()@[x as int] == if crate::graph::listed_node(seq![node], 1, x) { None } else { g0.node_pool()@[x as int] });
                }
            }
            assert forall|t: int| k <= t < orig.len() && g.node_pool().live((#[trigger] orig[t]).id) implies incident(*g, orig[t].id) by {
                assert(g0.node_pool().live(orig[t].id));
                if t == k {
                    if !incident(*g, node.id) {
                        assert forall|q: int, key: (u64, u64)| 0 <= q < g.tensors().len() && #[trigger] g.tensors()[q]@.contains_key(key)
                            implies key.0 != node.id && key.1 != node.id by {
                            g.lemma_tensors_wf();
                            g.tensors()[q].lemma_shape();
                            let cell = g.tensors()[q]@[key];
                            let x = cell.choose();
                            assert(cell.contains(x)) by {
                                if !cell.contains(x) {
                                    assert(cell =~= Set::<u64>::empty());
                                }
                            }
                            assert(crate::graph::holds(*g, q, key, x));
                        }
                        assert(crate::graph::listed_node(seq![node], 1, node.id)) by {
                            assert(seq![node][0] == node);
                        }
                    }
                } else {
                    assert(incident(g0, orig[t].id));
                    let (q, key, x) = choose|q: int, key: (u64, u64), x: u64| #[trigger] crate::graph::holds(g0, q, key, x) && (key.0 == orig[t].id || key.1 == orig[t].id);
                    assert(crate::graph::holds(*g, q, key, x));
                }
            }
        }
    }
    proof {
        assert(shapes(actions@) + rev_create_nodes(v@) =~= shapes(actions@));
    }
}

fn undo_create_edges(g: &mut Graph, v: Vec<Edge>, actions: &mut Vec<ContextAction>)
    requires
        old(g).wf(),
    ensures
        final(g).wf(),
        edges_undone(*old(g), *final(g), v@),
        forall|q: int, key: (u64, u64), x: u64| #[trigger] crate::graph::holds(*final(g), q, key, x)
            <==> crate::graph::holds(*old(g), q, key, x) && !recorded_from(v@, 0, q, key, x),
        forall|x: u64| #[trigger] final(g).edge_pool().live(x) <==> old(g).edge_pool().live(x) && !dropped_from(v@, 0, *old(g), x),
        shapes(final(actions)@) == shapes(old(actions)@) + rev_create_edges(v@),
{
    let ghost orig = v@;
    let mut v = v;
    proof {
        assert(shapes(actions@) + rev_create_edges(v@) =~= shapes(old(actions)@) + rev_create_edges(orig));
        assert(v@ =~= orig.take(v@.len() as int));
        assert forall|q: int, key: (u64, u64), x: u64| !recorded_from(orig, orig.len() as int, q, key, x) by {}
        assert forall|x: u64| !dropped_from(orig, orig.len() as int, *old(g), x) by {}
    }
    while v.len() > 0
        invariant
            g.wf(),
            shapes(actions@) + rev_create_edges(v@) == shapes(old(actions)@) + rev_create_edges(orig),
            v@.len() <= orig.len(),
            v@ == orig.take(v@.len() as int),
            forall|t: int| v@.len() <= t < orig.len() ==> !connected(*g, #[trigger] orig[t]),
            forall|q: int, key: (u64, u64), x: u64| #[trigger] crate::graph::holds(*g, q, key, x) ==> crate::graph::holds(*old(g), q, key, x),
            forall|x: u64| #[trigger] g.edge_pool().live(x) ==> old(g).edge_pool().live(x),
            g.node_pool() == old(g).node_pool(),
            g.tensors().len() == old(g).tensors().len(),
            forall|q: int, key: (u64, u64), x: u64| #[trigger] crate::graph::holds(*g, q, key, x)
                <==> crate::graph::holds(*old(g), q, key, x) && !recorded_from(orig, v@.len() as int, q, key, x),
            forall|x: u64| #[trigger] g.edge_pool().live(x) <==> old(g).edge_pool().live(x) && !dropped_from(orig, v@.len() as int, *old(g), x),
        decreases v@.len(),
    {
        let ghost before = actions@;
        let ghost v0 = v@;
        let ghost g0 = *g;
        let edge = v.pop().unwrap();
        actions.push(ContextAction::DeleteEdgeFromIndices(edge));
        proof {
            lemma_push_shape(before, ContextAction::DeleteEdgeFromIndices(edge), rev_create_edges(v@));
            assert(v@ == v0.drop_last() && edge == v0.last());
            assert(seq![ContextAction::DeleteEdgeFromIndices(edge)] + rev_create_edges(v@) == rev_create_edges(v0));
        }
        if g.is_edge_connected(&edge) {
            let mut one: Vec<Edge> = Vec::new();
            one.push(edge);
            proof {
                assert(one@ == seq![edge]);
            }
            let ghost one0 = one@;
            g.delete_edges(&mut one);
            proof {
                vstd::seq_lib::to_multiset_len(one@);
                vstd::seq_lib::to_multiset_len(one0);
                assert(one@.len() == 1);
                crate::edge_order::lemma_perm_member(one@, one0, 0);
                assert(one@[0] == edge);
                assert(crate::graph::listed(one@, 1, edge.relation_id as int, crate::tensor::edge_key(edge), edge.id));
                assert forall|x: u64| #[trigger] g.edge_pool().live(x) implies g0.edge_pool().live(x) by {
                    g.edges_pool_len_lemma();
                    assert(g.edge_pool()@[x as int] == if crate::graph::listed_id(one@, 1, x) { None } else { g0.edge_pool()@[x as int] });
                }
            }
        }
        proof {
            let k = v@.len() as int;
            assert(v@ =~= orig.take(k));
            assert(orig[k] == edge);
            g0.lemma_held_live();
            let te = (edge.relation_id as int, crate::tensor::edge_key(edge), edge.id);
            assert forall|q: int, key: (u64, u64), x: u64| #[trigger] crate::graph::holds(*g, q, key, x)
                <==> crate::graph::holds(*old(g), q, key, x) && !recorded_from(orig, k, q, key, x) by {
                assert(recorded_from(orig, k, q, key, x) == (recorded_from(orig, k + 1, q, key, x) || matches(edge, q, key, x))) by {
                    if recorded_from(orig, k, q, key, x) && !matches(edge, q, key, x) {
                        let i = choose|i: int| k <= i < orig.len() && matches(#[trigger] orig[i], q, key, x);
                        assert(i != k);
                    }
                    if recorded_from(orig, k + 1, q, key, x) {
                        let i = choose|i: int| k + 1 <= i < orig.len() && matches(#[trigger] orig[i], q, key, x);
                    }
                    if matches(edge, q, key, x) {
                        assert(matches(orig[k], q, key, x));
                    }
                }
                assert(crate::graph::holds(g0, q, key, x) <==> crate::graph::holds(*old(g), q, key, x) && !recorded_from(orig, k + 1, q, key, x));
                if matches(edge, q, key, x) && crate::graph::holds(g0, q, key, x) {
                    assert(g0.edge_pool().live(x));
                    assert(connected(g0, edge));
                }
            }
            assert forall|x: u64| #[trigger] g.edge_pool().live(x) <==> old(g).edge_pool().live(x) && !dropped_from(orig, k, *old(g), x) by {
                let held_e = crate::graph::holds(*old(g), te.0, te.1, te.2);
                assert(dropped_from(orig, k, *old(g), x) == (dropped_from(orig, k + 1, *old(g), x) || (edge.id == x && held_e))) by {
                    if dropped_from(orig, k, *old(g), x) && !(edge.id == x && held_e) {
                        let i = choose|i: int| k <= i < orig.len() && (#[trigger] orig[i]).id == x
                            && crate::graph::holds(*old(g), orig[i].relation_id as int, crate::tensor::edge_key(orig[i]), orig[i].id);
                        assert(i != k);
                    }
                    if dropped_from(orig, k + 1, *old(g), x) {
                        let i = choose|i: int| k + 1 <= i < orig.len() && (#[trigger] orig[i]).id == x
                            && crate::graph::holds(*old(g), orig[i].relation_id as int, crate::tensor::edge_key(orig[i]), orig[i].id);
                    }
                    if edge.id == x && held_e {
                        assert(orig[k].id == x);
                    }
                }
                assert(g0.edge_pool().live(x) <==> old(g).edge_pool().live(x) && !dropped_from(orig, k + 1, *old(g), x));
                assert(crate::graph::holds(g0, te.0, te.1, te.2) <==> held_e && !recorded_from(orig, k + 1, te.0, te.1, te.2));
                if x == edge.id && held_e && !connected(g0, edge) {
                    if !crate::graph::holds(g0, te.0, te.1, te.2) {
                        assert(recorded_from(orig, k + 1, te.0, te.1, te.2));
                        let i = choose|i: int| k + 1 <= i < orig.len() && matches(#[trigger] orig[i], te.0, te.1, te.2);
                        assert(dropped_from(orig, k + 1, *old(g), x)) by {
                            assert(orig[i].id == x);
                        }
                    } else {
                        assert(g0.edge_pool().live(x));
                    }
                }
            }
            assert forall|t: int| k <= t < orig.len() implies !connected(*g, #[trigger] orig[t]) by {
                if t > k {
                    assert(!connected(g0, orig[t]));
                }
            }
        }
    }
    proof {
        assert(shapes(actions@) + rev_create_edges(v@) =~= shapes(actions@));
    }
}

fn undo_delete_nodes(g: &mut Graph, v: Vec<(NodeID, AttributeSet, Vec<LabelID>)>, actions: &mut Vec<ContextAction>)
    requires
        old(g).wf(),
    ensures
        final(g).wf(),
        entry_effect(UndoOp::DeleteNodes(v), *old(g), *final(g)),
        shapes(final(actions)@) == shapes(old(actions)@) + rev_delete_nodes(v@),
{
    let ghost orig = v@;
    let mut v = v;
    proof {
        assert(shapes(actions@) + rev_delete_nodes(v@) =~= shapes(old(actions)@) + rev_delete_nodes(orig));
        assert(v@ =~= orig.take(v@.len() as int));
    }
    while v.len() > 0
        invariant
            g.wf(),
            shapes(actions@) + rev_delete_nodes(v@) == shapes(old(actions)@) + rev_delete_nodes(orig),
            v@.len() <= orig.len(),
            v@ == orig.take(v@.len() as int),
            g.label_matrices().len() == old(g).label_matrices().len(),
            forall|x: u64| #[trigger] old(g).node_pool().live(x) ==> g.node_pool().live(x),
            forall|t: int| v@.len() <= t < orig.len() && (old(g).node_pool().live((#[trigger] orig[t]).0)
                || node_restorable(*old(g), orig[t])) ==> g.node_pool().live(orig[t].0),
        decreases v@.len(),
    {
        let ghost before = actions@;
        let ghost v0 = v@;
        let ghost g0 = *g;
        let entry = v.pop().unwrap();
        let id = entry.0;
        let set = entry.1;
        if g.get_node(id).is_none() && id < u64::MAX - 2 && labels_valid(g, entry.2.as_slice()) {
            let mut node = Node { id, attributes: 0 };
            g.set_node(id, entry.2.as_slice(), &mut node);
            g.set_node_attributes(id, set);
        }
        proof {
            let k = v@.len() as int;
            assert(v@ =~= orig.take(k));
            assert(orig[k] == entry);
            assert forall|x: u64| #[trigger] g0.node_pool().live(x) implies g.node_pool().live(x) by {}
            assert forall|x: u64| #[trigger] old(g).node_pool().live(x) implies g.node_pool().live(x) by {
                assert(g0.node_pool().live(x));
            }
            assert forall|t: int| k <= t < orig.len() && (old(g).node_pool().live((#[trigger] orig[t]).0)
                || node_restorable(*old(g), orig[t])) implies g.node_pool().live(orig[t].0) by {
                if t > k {
                    assert(g0.node_pool().live(orig[t].0));
                }
            }
        }
        let act = ContextAction::AddNodeToIndices(Node { id, attributes: set });
        actions.push(act);
        proof {
            lemma_push_shape(before, act, rev_delete_nodes(v@));
            assert(v@ == v0.drop_last() && entry == v0.last());
            assert(seq![act] + rev_delete_nodes(v@) == rev_delete_nodes(v0));
        }
    }
    proof {
        assert(shapes(actions@) + rev_delete_nodes(v@) =~= shapes(actions@));
    }
}

fn undo_delete_edges(g: &mut Graph, v: Vec<(EdgeID, NodeID, NodeID, RelationID, AttributeSet)>, actions: &mut Vec<ContextAction>)
    requires
        old(g).wf(),
    ensures
        final(g).wf(),
        entry_effect(UndoOp::DeleteEdges(v), *old(g), *final(g)),
        shapes(final(actions)@) == shapes(old(actions)@) + rev_delete_edges(v@),
{
    let ghost orig = v@;
    let mut v = v;
    proof {
        assert(shapes(actions@) + rev_delete_edges(v@) =~= shapes(old(actions)@) + rev_delete_edges(orig));
        assert(v@ =~= orig.take(v@.len() as int));
    }
    while v.len() > 0
        invariant
            g.wf(),
            shapes(actions@) + rev_delete_edges(v@) == shapes(old(actions)@) + rev_delete_edges(orig),
            v@.len() <= orig.len(),
            v@ == orig.take(v@.len() as int),
            g.tensors().len() == old(g).tensors().len(),
            g.dim() == old(g).dim(),
            forall|q: int| 0 <= q < g.tensors().len() ==> (#[trigger] g.tensors()[q]).slots() <= old(g).tensors()[q].slots() + (orig.len() - v@.len()),
            forall|x: u64| #[trigger] old(g).edge_pool().live(x) ==> g.edge_pool().live(x),
            forall|t: int| v@.len() <= t < orig.len() && (old(g).edge_pool().live((#[trigger] orig[t]).0)
                || edge_restorable(*old(g), orig[t], orig.len() as int)) ==> g.edge_pool().live(orig[t].0),
        decreases v@.len(),
    {
        let ghost before = actions@;
        let ghost v0 = v@;
        let ghost g0 = *g;
        let entry = v.pop().unwrap();
        let (id, src, dest, r, set) = entry;
        let dim = g.required_matrix_dim();
        let count = g.relation_type_count();
        let mut probe = Edge { id: 0, src_id: src, dest_id: dest, relation_id: r, attributes: 0 };
        if 0 <= r && r < count && src < dim && dest < dim && id < MSB && !g.get_edge(id, &mut probe)
            && (g.relation_bundle_slots(r as usize) as u64) < MSB - 1 {
            let mut edge = Edge { id, src_id: src, dest_id: dest, relation_id: r, attributes: 0 };
            g.set_edge(true, id, src, dest, r, &mut edge);
            g.set_edge_attributes(id, set);
        }
        proof {
            let k = v@.len() as int;
            assert(v@ =~= orig.take(k));
            assert(orig[k] == entry);
            assert forall|x: u64| #[trigger] old(g).edge_pool().live(x) implies g.edge_pool().live(x) by {
                assert(g0.edge_pool().live(x));
            }
            assert forall|q: int| 0 <= q < g.tensors().len() implies (#[trigger] g.tensors()[q]).slots() <= old(g).tensors()[q].slots() + (orig.len() - k) by {
                assert(g0.tensors()[q].slots() <= old(g).tensors()[q].slots() + (orig.len() - k - 1));
            }
            assert forall|t: int| k <= t < orig.len() && (old(g).edge_pool().live((#[trigger] orig[t]).0)
                || edge_restorable(*old(g), orig[t], orig.len() as int)) implies g.edge_pool().live(orig[t].0) by {
                if t > k {
                    assert(g0.edge_pool().live(orig[t].0));
                } else if !g0.edge_pool().live(orig[t].0) {
                    assert(g0.tensors()[r as int].slots() <= old(g).tensors()[r as int].slots() + (orig.len() - k - 1));
                    assert(g0.tensors().len() == old(g).tensors().len());
                    assert(g0.dim() == old(g).dim());
                }
            }
        }
        let act = ContextAction::AddEdgeToIndices(Edge { id, src_id: src, dest_id: dest, relation_id: r, attributes: set });
        actions.push(act);
        proof {
            lemma_push_shape(before, act, rev_delete_edges(v@));
            assert(v@ == v0.drop_last() && entry == v0.last());
            assert(seq![act] + rev_delete_edges(v@) == rev_delete_edges(v0));
        }
    }
    proof {
        assert(shapes(actions@) + rev_delete_edges(v@) =~= shapes(actions@));
    }
}

fn undo_update_nodes(g: &mut Graph, v: Vec<(Node, AttributeSet)>, actions: &mut Vec<ContextAction>)
    requires
        old(g).wf(),
    ensures
        final(g).wf(),
        forall|x: u64| #[trigger] final(g).node_pool().live(x) <==> old(g).node_pool().live(x),
        v@.len() > 0 && old(g).node_pool().live(v@[0].0.id) ==> final(g).node_pool()@[v@[0].0.id as int] == Some(v@[0].1),
        shapes(final(actions)@) == shapes(old(actions)@) + rev_update_nodes(v@),
{
    let ghost orig = v@;
    let mut v = v;
    proof {
        assert(shapes(actions@) + rev_update_nodes(v@) =~= shapes(old(actions)@) + rev_update_nodes(orig));
        assert(v@ =~= orig.take(v@.len() as int));
    }
    while v.len() > 0
        invariant
            g.wf(),
            shapes(actions@) + rev_update_nodes(v@) == shapes(old(actions)@) + rev_update_nodes(orig),
            v@.len() <= orig.len(),
            v@ == orig.take(v@.len() as int),
            forall|x: u64| #[trigger] g.node_pool().live(x) <==> old(g).node_pool().live(x),
            v@.len() == 0 && orig.len() > 0 && old(g).node_pool().live(orig[0].0.id) ==> g.node_pool()@[orig[0].0.id as int] == Some(orig[0].1),
        decreases v@.len(),
    {
        let ghost before = actions@;
        let ghost v0 = v@;
        let ghost g0 = *g;
        let entry = v.pop().unwrap();
        let (node, old_set) = entry;
        let mut freed: AttributeSet = 0;
        if let Some(current) = g.get_node(node.id) {
            freed = current.attributes;
            g.set_node_attributes(node.id, old_set);
        }
        proof {
            let k = v@.len() as int;
            assert(v@ =~= orig.take(k));
            assert(orig[k] == entry);
            assert forall|x: u64| #[trigger] g.node_pool().live(x) <==> old(g).node_pool().live(x) by {
                assert(g0.node_pool().live(x) <==> old(g).node_pool().live(x));
            }
        }
        let act = ContextAction::RestoreNodeInIndices(Node { id: node.id, attributes: old_set }, freed);
        actions.push(act);
        proof {
            lemma_push_shape(before, act, rev_update_nodes(v@));
            assert(v@ == v0.drop_last() && entry == v0.last());
            assert(seq![shape(act)] + rev_update_nodes(v@) == rev_update_nodes(v0));
        }
    }
    proof {
        assert(shapes(actions@) + rev_update_nodes(v@) =~= shapes(actions@));
    }
}

fn undo_update_edges(g: &mut Graph, v: Vec<(Edge, AttributeSet)>, actions: &mut Vec<ContextAction>)
    requires
        old(g).wf(),
    ensures
        final(g).wf(),
        forall|x: u64| #[trigger] final(g).edge_pool().live(x) <==> old(g).edge_pool().live(x),
        v@.len() > 0 && old(g).edge_pool().live(v@[0].0.id) ==> final(g).edge_pool()@[v@[0].0.id as int] == Some(v@[0].1),
        shapes(final(actions)@) == shapes(old(actions)@) + rev_update_edges(v@),
{
    let ghost orig = v@;
    let mut v = v;
    proof {
        assert(shapes(actions@) + rev_update_edges(v@) =~= shapes(old(actions)@) + rev_update_edges(orig));
        assert(v@ =~= orig.take(v@.len() as int));
    }
    while v.len() > 0
        invariant
            g.wf(),
            shapes(actions@) + rev_update_edges(v@) == shapes(old(actions)@) + rev_update_edges(orig),
            v@.len() <= orig.len(),
            v@ == orig.take(v@.len() as int),
            forall|x: u64| #[trigger] g.edge_pool().live(x) <==> old(g).edge_pool().live(x),
            v@.len() == 0 && orig.len() > 0 && old(g).edge_pool().live(orig[0].0.id) ==> g.edge_pool()@[orig[0].0.id as int] == Some(orig[0].1),
        decreases v@.len(),
    {
        let ghost before = actions@;
        let ghost v0 = v@;
        let ghost g0 = *g;
        let entry = v.pop().unwrap();
        let (edge, old_set) = entry;
        let mut current = edge;
        let mut freed: AttributeSet = 0;
        if g.get_edge(edge.id, &mut current) {
            freed = current.attributes;
            g.set_edge_attributes(edge.id, old_set);
        }
        proof {
            let k = v@.len() as int;
            assert(v@ =~= orig.take(k));
            assert(orig[k] == entry);
            assert forall|x: u64| #[trigger] g.edge_pool().live(x) <==> old(g).edge_pool().live(x) by {
                assert(g0.edge_pool().live(x) <==> old(g).edge_pool().live(x));
            }
        }
        let act = ContextAction::RestoreEdgeInIndices(
            Edge { id: edge.id, src_id: edge.src_id, dest_id: edge.dest_id, relation_id: edge.relation_id, attributes: old_set },
            freed,
        );
        actions.push(act);
        proof {
            lemma_push_shape(before, act, rev_update_edges(v@));
            assert(v@ == v0.drop_last() && entry == v0.last());
            assert(seq![shape(act)] + rev_update_edges(v@) == rev_update_edges(v0));
        }
    }
    proof {
        assert(shapes(actions@) + rev_update_edges(v@) =~= shapes(actions@));
    }
}

fn undo_add_labels(g: &mut Graph, v: Vec<(Node, Vec<LabelID>)>, actions: &mut Vec<ContextAction>)
    requires
        old(g).wf(),
    ensures
        final(g).wf(),
        entry_effect(UndoOp::AddLabels(v), *old(g), *final(g)),
        final(g).label_matrices().len() == old(g).label_matrices().len(),
        final(g).dim() == old(g).dim(),
        shapes(final(actions)@) == shapes(old(actions)@) + rev_add_labels(v@),
{
    let ghost orig = v@;
    let mut v = v;
    proof {
        assert(shapes(actions@) + rev_add_labels(v@) =~= shapes(old(actions)@) + rev_add_labels(orig));
        assert(v@ =~= orig.take(v@.len() as int));
    }
    while v.len() > 0
        invariant
            g.wf(),
            shapes(actions@) + rev_add_labels(v@) == shapes(old(actions)@) + rev_add_labels(orig),
            v@.len() <= orig.len(),
            v@ == orig.take(v@.len() as int),
            g.label_matrices().len() == old(g).label_matrices().len(),
            g.dim() == old(g).dim(),
            forall|q: int, c: (u64, u64)| 0 <= q < g.label_matrices().len() ==> (g.label_matrices()[q]@.contains_key(c) ==> old(g).label_matrices()[q]@.contains_key(c)),
            forall|t: int, k: int|
                v@.len() <= t < orig.len() && labels_apply(*old(g), orig[t]) && 0 <= k < orig[t].1@.len()
                    ==> !g.label_matrices()[(#[trigger] orig[t].1@[k]) as int]@.contains_key((orig[t].0.id, orig[t].0.id)),
        decreases v@.len(),
    {
        let ghost before = actions@;
        let ghost v0 = v@;
        let ghost g0 = *g;
        let entry = v.pop().unwrap();
        let ghost e0 = entry;
        let (node, labels) = entry;
        if node.id < g.required_matrix_dim() && labels_valid(g, labels.as_slice()) {
            g.remove_node_labels(node.id, labels.as_slice());
        }
        proof {
            let kk = v@.len() as int;
            assert(v@ =~= orig.take(kk));
            assert(orig[kk] == e0);
            assert(labels_apply(*old(g), e0) == labels_apply(g0, e0));
            assert forall|t: int, k: int|
                kk <= t < orig.len() && labels_apply(*old(g), orig[t]) && 0 <= k < orig[t].1@.len()
                    implies !g.label_matrices()[(#[trigger] orig[t].1@[k]) as int]@.contains_key((orig[t].0.id, orig[t].0.id)) by {
                if t == kk {
                    assert(labels@.contains(labels@[k]));
                } else {
                    assert(!g0.label_matrices()[orig[t].1@[k] as int]@.contains_key((orig[t].0.id, orig[t].0.id)));
                }
            }
        }
        let ghost act = ContextAction::DeleteNodeFromIndicesByLabels(node, labels);
        actions.push(ContextAction::DeleteNodeFromIndicesByLabels(node, labels));
        proof {
            lemma_push_shape(before, act, rev_add_labels(v@));
            assert(v@ == v0.drop_last() && e0 == v0.last());
            assert(seq![act] + rev_add_labels(v@) == rev_add_labels(v0));
        }
    }
    proof {
        assert(shapes(actions@) + rev_add_labels(v@) =~= shapes(actions@));
        assert(orig.take(0) =~= v@);
    }
}

fn undo_remove_labels(g: &mut Graph, v: Vec<(Node, Vec<LabelID>)>, actions: &mut Vec<ContextAction>)
    requires
        old(g).wf(),
    ensures
        final(g).wf(),
        entry_effect(UndoOp::RemoveLabels(v), *old(g), *final(g)),
        final(g).label_matrices().len() == old(g).label_matrices().len(),
        final(g).dim() == old(g).dim(),
        shapes(final(actions)@) == shapes(old(actions)@) + rev_remove_labels(v@),
{
    let ghost orig = v@;
    let mut v = v;
    proof {
        assert(shapes(actions@) + rev_remove_labels(v@) =~= shapes(old(actions)@) + rev_remove_labels(orig));
        assert(v@ =~= orig.take(v@.len() as int));
    }
    while v.len() > 0
        invariant
            g.wf(),
            shapes(actions@) + rev_remove_labels(v@) == shapes(old(actions)@) + rev_remove_labels(orig),
            v@.len() <= orig.len(),
            v@ == orig.take(v@.len() as int),
            g.label_matrices().len() == old(g).label_matrices().len(),
            g.dim() == old(g).dim(),
            forall|q: int, c: (u64, u64)| 0 <= q < g.label_matrices().len() ==> (old(g).label_matrices()[q]@.contains_key(c) ==> g.label_matrices()[q]@.contains_key(c)),
            forall|t: int, k: int|
                v@.len() <= t < orig.len() && labels_apply(*old(g), orig[t]) && 0 <= k < orig[t].1@.len()
                    ==> g.label_matrices()[(#[trigger] orig[t].1@[k]) as int]@.contains_key((orig[t].0.id, orig[t].0.id)),
        decreases v@.len(),
    {
        let ghost before = actions@;
        let ghost v0 = v@;
        let ghost g0 = *g;
        let entry = v.pop().unwrap();
        let ghost e0 = entry;
        let (node, labels) = entry;
        if node.id < g.required_matrix_dim() && labels_valid(g, labels.as_slice()) {
            g.label_node(node.id, labels.as_slice());
        }
        proof {
            let kk = v@.len() as int;
            assert(v@ =~= orig.take(kk));
            assert(orig[kk] == e0);
            assert(labels_apply(*old(g), e0) == labels_apply(g0, e0));
            assert forall|t: int, k: int|
                kk <= t < orig.len() && labels_apply(*old(g), orig[t]) && 0 <= k < orig[t].1@.len()
                    implies g.label_matrices()[(#[trigger] orig[t].1@[k]) as int]@.contains_key((orig[t].0.id, orig[t].0.id)) by {
                if t == kk {
                    assert(labels@.contains(labels@[k]));
                } else {
                    assert(g0.label_matrices()[orig[t].1@[k] as int]@.contains_key((orig[t].0.id, orig[t].0.id)));
                }
            }
        }
        let act = ContextAction::AddNodeToIndices(node);
        actions.push(act);
        proof {
            lemma_push_shape(before, act, rev_remove_labels(v@));
            assert(v@ == v0.drop_last() && e0 == v0.last());
            assert(seq![act] + rev_remove_labels(v@) == rev_remove_labels(v0));
        }
    }
    proof {
        assert(shapes(actions@) + rev_remove_labels(v@) =~= shapes(actions@));
        assert(orig.take(0) =~= v@);
    }
}

/// Whether every id of `labels` names a label of `g`.
fn labels_valid(g: &Graph, labels: &[LabelID]) -> (r: bool)
    requires
        g.wf(),
    ensures
        r == forall|t: int| 0 <= t < labels@.len() ==> 0 <= #[trigger] labels@[t] < g.label_matrices().len(),
{
    let count = g.label_type_count();
    let mut k: usize = 0;
    while k < labels.len()
        invariant
            k <= labels@.len(),
            count == g.label_matrices().len(),
            forall|t: int| 0 <= t < k ==> 0 <= #[trigger] labels@[t] < g.label_matrices().len(),
        decreases labels@.len() - k,
    {
        if labels[k] < 0 || labels[k] >= count {
            return false;
        }
        k = k + 1;
    }
    true
}

} // verus!

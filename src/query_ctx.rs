use vstd::prelude::*;
use crate::graph::Graph;
use crate::undo_log::{ContextAction, UndoLog, UndoOp, connected, creation_only, edge_live_after, entry_effect, held_after, incident, lemma_effect_frame, log_actions, node_live_after, nodes_first, shapes};

verus! {

/// Stage of a query: waiting for the lock.
pub const QUERY_STAGE_WAITING: u32 = 0;

/// Stage of a query: executing.
pub const QUERY_STAGE_EXECUTING: u32 = 1;

/// Stage of a query: reporting results.
pub const QUERY_STAGE_REPORTING: u32 = 2;

/// Handle of an object owned by the query layer (an AST, a parameter map, a
/// result set); 0 stands for none.
pub type Handle = u64;

/// Per-query state around the graph: the query layer's handles, the stage,
/// and the undo log that rollback replays.
pub struct QueryCtx {
    ast: Handle,
    params: Handle,
    result_set: Handle,
    utilized_cache: bool,
    stage: u32,
    undo_log: Option<UndoLog>,
}

impl QueryCtx {
    pub closed spec fn ast_spec(&self) -> Handle {
        self.ast
    }

    pub closed spec fn params_spec(&self) -> Handle {
        self.params
    }

    pub closed spec fn result_set_spec(&self) -> Handle {
        self.result_set
    }

    pub closed spec fn cache_spec(&self) -> bool {
        self.utilized_cache
    }

    pub closed spec fn stage_spec(&self) -> u32 {
        self.stage
    }

    pub closed spec fn has_log(&self) -> bool {
        self.undo_log is Some
    }

    /// The entries of the undo log, none when there is no log.
    pub closed spec fn log_entries(&self) -> Seq<UndoOp> {
        match self.undo_log {
            Some(l) => l.entries(),
            None => Seq::empty(),
        }
    }

    /// A context with no handles, no log, waiting.
    pub fn new() -> (r: Self)
        ensures
            r.ast_spec() == 0,
            r.params_spec() == 0,
            r.result_set_spec() == 0,
            !r.cache_spec(),
            r.stage_spec() == QUERY_STAGE_WAITING,
            !r.has_log(),
    {
        QueryCtx { ast: 0, params: 0, result_set: 0, utilized_cache: false, stage: QUERY_STAGE_WAITING, undo_log: None }
    }

    pub fn set_ast(&mut self, ast: Handle)
        ensures
            final(self).ast_spec() == ast,
            final(self).params_spec() == old(self).params_spec(),
            final(self).result_set_spec() == old(self).result_set_spec(),
            final(self).stage_spec() == old(self).stage_spec(),
            final(self).cache_spec() == old(self).cache_spec(),
            final(self).has_log() == old(self).has_log(),
            final(self).log_entries() == old(self).log_entries(),
    {
        self.ast = ast;
    }

    pub fn get_ast(&self) -> (r: Handle)
        ensures
            r == self.ast_spec(),
    {
        self.ast
    }

    pub fn set_result_set(&mut self, result_set: Handle)
        ensures
            final(self).result_set_spec() == result_set,
            final(self).ast_spec() == old(self).ast_spec(),
            final(self).params_spec() == old(self).params_spec(),
            final(self).stage_spec() == old(self).stage_spec(),
            final(self).cache_spec() == old(self).cache_spec(),
            final(self).has_log() == old(self).has_log(),
            final(self).log_entries() == old(self).log_entries(),
    {
        self.result_set = result_set;
    }

    pub fn get_result_set(&self) -> (r: Handle)
        ensures
            r == self.result_set_spec(),
    {
        self.result_set
    }

    pub fn set_params(&mut self, params: Handle)
        ensures
            final(self).params_spec() == params,
            final(self).ast_spec() == old(self).ast_spec(),
            final(self).result_set_spec() == old(self).result_set_spec(),
            final(self).stage_spec() == old(self).stage_spec(),
            final(self).cache_spec() == old(self).cache_spec(),
            final(self).has_log() == old(self).has_log(),
            final(self).log_entries() == old(self).log_entries(),
    {
        self.params = params;
    }

    pub fn get_params(&self) -> (r: Handle)
        ensures
            r == self.params_spec(),
    {
        self.params
    }

    pub fn set_utilized_cache(&mut self, utilized: bool)
        ensures
            final(self).cache_spec() == utilized,
            final(self).ast_spec() == old(self).ast_spec(),
            final(self).params_spec() == old(self).params_spec(),
            final(self).result_set_spec() == old(self).result_set_spec(),
            final(self).stage_spec() == old(self).stage_spec(),
            final(self).has_log() == old(self).has_log(),
            final(self).log_entries() == old(self).log_entries(),
    {
        self.utilized_cache = utilized;
    }

    pub fn utilized_cache(&self) -> (r: bool)
        ensures
            r == self.cache_spec(),
    {
        self.utilized_cache
    }

    pub fn stage(&self) -> (r: u32)
        ensures
            r == self.stage_spec(),
    {
        self.stage
    }

    /// Moves to the next stage.
    pub fn advance_stage(&mut self)
        requires
            old(self).stage_spec() <= QUERY_STAGE_REPORTING,
        ensures
            final(self).stage_spec() == old(self).stage_spec() + 1,
            final(self).has_log() == old(self).has_log(),
            final(self).log_entries() == old(self).log_entries(),
    {
        self.stage = self.stage + 1;
    }

    /// Goes back from executing to waiting.
    pub fn reset_stage(&mut self)
        requires
            old(self).stage_spec() == QUERY_STAGE_EXECUTING,
        ensures
            final(self).stage_spec() == QUERY_STAGE_WAITING,
            final(self).has_log() == old(self).has_log(),
            final(self).log_entries() == old(self).log_entries(),
    {
        self.stage = QUERY_STAGE_WAITING;
    }

    /// The query's undo log, created empty on first use.
    pub fn get_undo_log(&mut self) -> (r: &mut UndoLog)
        ensures
            final(self).has_log(),
            !old(self).has_log() ==> r.entries().len() == 0,
    {
        if self.undo_log.is_none() {
            self.undo_log = Some(UndoLog::new());
        }
        self.undo_log.as_mut().unwrap()
    }

    /// Replays the undo log, if any, which is then dropped, and resets the
    /// graph's node reservations. Returns the registry calls of the replay.
    pub fn rollback(&mut self, g: &mut Graph) -> (r: Vec<ContextAction>)
        requires
            old(g).wf(),
        ensures
            final(g).wf(),
            !final(self).has_log(),
            final(g).reserved() == 0,
            shapes(r@) == log_actions(old(self).log_entries()),
            old(self).log_entries().len() == 1 ==> entry_effect(old(self).log_entries()[0], *old(g), *final(g)),
            creation_only(old(self).log_entries()) ==> forall|i: int, t: int|
                0 <= i < old(self).log_entries().len() && old(self).log_entries()[i] is CreateEdges && 0 <= t
                    < old(self).log_entries()[i]->CreateEdges_0@.len() ==> !connected(*final(g), #[trigger] old(self).log_entries()[i]->CreateEdges_0@[t]),
            creation_only(old(self).log_entries()) && nodes_first(old(self).log_entries()) ==> forall|i: int, t: int|
                0 <= i < old(self).log_entries().len() && old(self).log_entries()[i] is CreateNodes && 0 <= t
                    < old(self).log_entries()[i]->CreateNodes_0@.len() && final(g).node_pool().live(
                    (#[trigger] old(self).log_entries()[i]->CreateNodes_0@[t]).id,
                ) ==> incident(*final(g), old(self).log_entries()[i]->CreateNodes_0@[t].id),
            creation_only(old(self).log_entries()) ==> forall|q: int, key: (u64, u64), x: u64| #[trigger] crate::graph::holds(*final(g), q, key, x)
                <==> held_after(old(self).log_entries(), 0, *old(g), q, key, x),
            creation_only(old(self).log_entries()) ==> forall|x: u64| #[trigger] final(g).edge_pool().live(x)
                <==> edge_live_after(old(self).log_entries(), 0, *old(g), x),
            creation_only(old(self).log_entries()) ==> forall|x: u64| #[trigger] final(g).node_pool().live(x)
                <==> node_live_after(old(self).log_entries(), 0, *old(g), x),
    {
        let r = match self.undo_log.take() {
            Some(mut log) => log.rollback(g),
            None => {
                proof {
                    assert(log_actions(Seq::<UndoOp>::empty()) =~= Seq::<ContextAction>::empty());
                }
                proof {
                    assert forall|q: int, key: (u64, u64), x: u64| #[trigger] crate::graph::holds(*g, q, key, x)
                        <==> held_after(Seq::<UndoOp>::empty(), 0, *g, q, key, x) by {}
                    assert forall|x: u64| #[trigger] g.edge_pool().live(x) <==> edge_live_after(Seq::<UndoOp>::empty(), 0, *g, x) by {}
                    assert forall|x: u64| #[trigger] g.node_pool().live(x) <==> node_live_after(Seq::<UndoOp>::empty(), 0, *g, x) by {}
                }
                let v: Vec<ContextAction> = Vec::new();
                assert(shapes(v@) =~= Seq::<ContextAction>::empty());
                v
            },
        };
        let ghost g1 = *g;
        g.reset_reserved_node();
        proof {
            assert forall|e: crate::graph_entity::Edge| connected(*g, e) implies connected(g1, e) by {
                assert(g.tensors()[e.relation_id as int]@ == g1.tensors()[e.relation_id as int]@);
            }
            assert forall|n: u64| incident(*g, n) implies incident(g1, n) by {
                let (q, key, x) = choose|q: int, key: (u64, u64), x: u64| #[trigger] crate::graph::holds(*g, q, key, x) && (key.0 == n || key.1 == n);
                assert(g.tensors()[q]@ == g1.tensors()[q]@);
                assert(crate::graph::holds(g1, q, key, x));
            }
            assert forall|n: u64| incident(g1, n) implies incident(*g, n) by {
                let (q, key, x) = choose|q: int, key: (u64, u64), x: u64| #[trigger] crate::graph::holds(g1, q, key, x) && (key.0 == n || key.1 == n);
                assert(g.tensors()[q]@ == g1.tensors()[q]@);
                assert(crate::graph::holds(*g, q, key, x));
            }
            assert forall|x: u64| g.node_pool().live(x) implies g1.node_pool().live(x) by {
                assert(g.node_pool()@ == g1.node_pool()@);
            }
            if old(self).log_entries().len() == 1 {
                lemma_effect_frame(old(self).log_entries()[0], *old(g), g1, *g);
            }
            assert forall|q: int, key: (u64, u64), x: u64| #[trigger] crate::graph::holds(*g, q, key, x)
                == crate::graph::holds(g1, q, key, x) by {}
        }
        r
    }
}

} // verus!

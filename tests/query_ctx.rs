use falkordb::graph::Graph;
use falkordb::query_ctx::{QueryCtx, QUERY_STAGE_EXECUTING, QUERY_STAGE_WAITING};

#[test]
fn query_ctx_handles_and_stage() {
    let mut q = QueryCtx::new();
    assert_eq!(q.get_ast(), 0);
    q.set_ast(5);
    q.set_params(6);
    q.set_result_set(7);
    q.set_utilized_cache(true);
    assert_eq!(q.get_ast(), 5);
    assert_eq!(q.get_params(), 6);
    assert_eq!(q.get_result_set(), 7);
    assert!(q.utilized_cache());
    assert_eq!(q.stage(), QUERY_STAGE_WAITING);
    q.advance_stage();
    assert_eq!(q.stage(), QUERY_STAGE_EXECUTING);
    q.reset_stage();
    assert_eq!(q.stage(), QUERY_STAGE_WAITING);
}

#[test]
fn query_ctx_rollback_undoes_nodes() {
    let mut g = Graph::new(8, 8);
    let mut q = QueryCtx::new();
    let mut n = g.reserve_node();
    g.create_node(&mut n, &[]);
    q.get_undo_log().create_node(n);
    assert_eq!(q.get_undo_log().len(), 1);
    let actions = q.rollback(&mut g);
    assert_eq!(actions.len(), 1);
    assert_eq!(g.node_count(), 0);
    assert!(q.rollback(&mut g).is_empty());
}

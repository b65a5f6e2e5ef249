//! In-memory property-graph storage: sparse and delta matrices, relation
//! tensors, the graph composite and its undo log.
pub mod sparse_matrix;
pub mod delta_matrix;
pub mod graph_entity;
pub mod tensor;
pub mod delta_matrix_iter;
pub mod datablock;
pub mod graph;
pub mod undo_log;
pub mod query_ctx;
pub mod edge_order;

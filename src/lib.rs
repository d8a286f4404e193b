//! A reactive dependency-graph evaluator: input cells hold values, compute
//! cells derive theirs from other cells, and every write is propagated so
//! that the graph returns to a fixed point.
pub mod work_with_cell;

// An incremental relational dataflow engine.
//
// `simple` holds the graph: base relations, maps, distinct operators and
// equi-joins, whose outputs are kept up to date from signed deltas that a
// FIFO queue delivers when the graph is pumped. `backref` holds owned
// handles and the registries that attach values to them without keeping
// them alive. `arena`, `row`, `counts`, `join` and `delta` are the pieces
// the graph is built from.
pub mod arena;
pub mod backref;
pub mod counts;
pub mod delta;
pub mod join;
pub mod row;
pub mod simple;

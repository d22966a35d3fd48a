pub mod assign;
pub mod classify;
pub mod graph;
pub mod order;
pub mod parse;
pub mod reach;
pub mod scc;
pub mod trace;

pub use classify::ComponentData;
pub use classify::classify_condensation;
pub use graph::Edge;
pub use graph::Graph;
pub use graph::GraphError;
pub use parse::get_int_len;
pub use parse::get_usize_len;
pub use parse::parse_line;
pub use parse::parse_line_fill;
pub use scc::build_graph;
pub use scc::compute_sccs;

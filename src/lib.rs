//! Static single assignment form for a compiler's middle end: values, instructions and
//! blocks of a function's data flow graph, the control flow graph, reachability,
//! post-order and dominance, constant folding, block inlining and the call graph;
//! beside them, the module-item parser and the decisions of the workspace clean command.

pub mod call_graph;
pub mod cfg;
pub mod clean;
pub mod dfg;
pub mod dom;
pub mod fold;
pub mod function;
pub mod ids;
pub mod inserter;
pub mod instruction;
pub mod map;
pub mod parser;
pub mod post_order;
pub mod types;

// Static analysis of a typed stack-based IR: each function's statements are cut into a
// control-flow graph, its call sites are sorted by the role of the callee, and a generic
// worklist solver runs the reentrancy analysis over the graph.

pub mod cfg;
pub mod classifier;
pub mod dataflow;
pub mod function;
pub mod ir;
pub mod reentrancy;
pub mod text;

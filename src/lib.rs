//! A node of a manually wired ring of servers that speak a line-based text
//! protocol: the command grammar, the node's state, and the decisions that
//! each command leads to.
pub mod addr;
pub mod laws;
pub mod node;
pub mod protocol;
pub mod text;

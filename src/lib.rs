//! Verified core of a rust-analyzer bridge: the goal-tree store behind the
//! failed-obligations queries, the frame codec of the language-server wire
//! format, and the request/response correlation table.

pub mod obligations;
pub mod correlation;
pub mod framing;
pub mod paths;
pub mod protocol;
pub mod proxy;

//! A small graph library that enumerates every simple path between two
//! points of a connectivity net.
//!
//! Callers supply a point type (anything with a stable textual identifier),
//! build nodes (a point plus its outbound connections) with `NodeBuilder`,
//! assemble a `Net` from the nodes, and ask the net for every loop-free
//! route between two points with `Net::find_paths`.

pub mod net;
pub mod node;
pub mod path;

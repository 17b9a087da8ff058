//! A directed multigraph over opaque identifiers, together with a builder
//! that derives a "funds" relation between blockchain transactions: an edge
//! runs from transaction `p` to transaction `c` whenever an input of `c`
//! spends an output of `p`.

pub mod builder;
pub mod graph;

//! An undirected weighted multigraph over small integer node identifiers,
//! together with a union-find structure, a connectivity query and Kruskal's
//! minimum-spanning-forest construction.

pub mod connectivity;
pub mod edge;
pub mod graph;
pub mod union_find;

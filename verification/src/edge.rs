use vstd::prelude::*;

verus! {

/// An edge of the multigraph: two endpoint identifiers and a signed weight.
/// Equality is structural; the minimum-spanning-tree construction orders
/// edges by comparing their weights directly.
#[derive(Clone, Copy, Debug, PartialEq, Eq, Structural)]
pub struct Edge {
    pub u: usize,
    pub v: usize,
    pub w: i32,
}

impl Edge {
    pub fn new(u_: usize, v_: usize, w_: i32) -> (e: Edge)
        ensures
            e.u == u_,
            e.v == v_,
            e.w == w_,
    {
        Edge { u: u_, v: v_, w: w_ }
    }
}

impl Default for Edge {
    /// The default edge is `(0, 0, 0)`; it carries no meaning beyond
    /// satisfying containers that ask for a default value.
    fn default() -> (e: Edge)
        ensures
            e.u == 0,
            e.v == 0,
            e.w == 0,
    {
        Edge { u: 0, v: 0, w: 0 }
    }
}

} // verus!

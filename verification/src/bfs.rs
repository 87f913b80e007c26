//! Search state for breadth-first searches over the voxel grid.
use vstd::prelude::*;
use crate::grid::{V3, view3, filled_grid3};

verus! {

/// Search state: a cost per cell.
pub struct BFS {
    pub cost: V3<usize>,
}

impl BFS {
    /// A search state over an `r` by `r` by `r` grid with every cost zero.
    pub fn new(r: usize) -> (b: BFS)
        ensures
            view3(&b.cost) == Seq::new(r as nat, |i: int| Seq::new(r as nat, |j: int| Seq::new(r as nat, |k: int| 0usize))),
    {
        BFS { cost: filled_grid3(0usize, r) }
    }
}

} // verus!

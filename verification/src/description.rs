use vstd::prelude::*;

verus! {

/// One node of the problem, as the core reads it: its demand and whether it
/// is the depot. Coordinates are only ever used to build the integer
/// distance matrix, which callers compute up front and hand to
/// [`crate::data::Data::new`] together with the description.
pub struct Node {
    pub demand: i32,
    pub is_depot: bool,
}

/// A node together with its external identifier.
pub struct NodeEntry {
    pub id: String,
    pub node: Node,
}

/// The raw problem description. The order of `nodes` fixes the internal
/// index assignment, so a caller that wants reproducible indices supplies
/// the entries in a canonical order (for instance sorted by id).
pub struct Description {
    pub capacity: i32,
    pub edge_weight_type: String,
    pub nodes: Vec<NodeEntry>,
}

} // verus!

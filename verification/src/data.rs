//! The validated problem instance: internal index space, integer distance
//! matrix, demand vector, capacity and depot index, together with the
//! capacity-aware decoder that turns a permutation of customer indices into
//! a cost and into a route plan.

use vstd::prelude::*;

use crate::description::{Description, NodeEntry};
use crate::matrix::{matrix_entries, matrix_from_rows, matrix_get, DistanceMatrix};

verus! {

pub type NodeIndex = usize;

pub type Cost = i32;

/// Why a raw description (or its distance matrix) was rejected.
#[derive(Clone, Copy, Debug, PartialEq, Eq, Structural)]
pub enum DataError {
    /// The edge weight tag is not the Euclidean 2D identifier.
    EdgeWeightType,
    /// The vehicle capacity is zero or negative.
    NonPositiveCapacity,
    /// Two nodes share one external id.
    DuplicateId,
    /// There is no depot node, or more than one.
    DepotCount,
    /// Some demand is negative or exceeds the vehicle capacity.
    DemandExceedsCapacity,
    /// The distance matrix is not square over the node set, not symmetric,
    /// has a non-zero diagonal, or holds an entry that is negative or too
    /// large for costs to stay within `i32`.
    MatrixShape,
}

/// The validated instance. `nodes_demand`, `index_to_id` and the matrix are
/// all indexed by the internal node index.
pub struct Data {
    pub distance_matrix: DistanceMatrix,
    pub depot: NodeIndex,
    pub nodes_demand: Vec<i32>,
    pub capacity: i32,
    pub index_to_id: Vec<String>,
}

/// Exactly one entry carries the depot flag.
pub open spec fn unique_depot(nodes: Seq<NodeEntry>) -> bool {
    exists|i: int|
        0 <= i < nodes.len() && (#[trigger] nodes[i]).node.is_depot && (forall|j: int|
            0 <= j < nodes.len() && j != i ==> !(#[trigger] nodes[j]).node.is_depot)
}

/// All external ids are pairwise distinct.
pub open spec fn ids_distinct(nodes: Seq<NodeEntry>) -> bool {
    forall|i: int, j: int|
        #![trigger nodes[i], nodes[j]]
        0 <= i < j < nodes.len() ==> (nodes[i]).id@ != (nodes[j]).id@
}

/// Every demand is non-negative and no larger than the vehicle capacity.
pub open spec fn demands_ok(nodes: Seq<NodeEntry>, capacity: i32) -> bool {
    forall|i: int| 0 <= i < nodes.len() ==> 0 <= (#[trigger] nodes[i]).node.demand <= capacity
}

/// The description carries the Euclidean 2D edge weight tag.
pub open spec fn edge_type_ok(desc: Description) -> bool {
    desc.edge_weight_type@ == "EUC_2D"@
}

/// An `n` by `n` symmetric matrix with zero diagonal whose entries lie in
/// `[0, Data::dist_cap(n)]`, so that any decoded tour cost fits in an `i32`.
pub open spec fn matrix_ok(m: Seq<Seq<i32>>, n: int) -> bool {
    &&& m.len() == n
    &&& forall|i: int| 0 <= i < n ==> (#[trigger] m[i]).len() == n
    &&& forall|i: int, j: int|
        0 <= i < n && 0 <= j < n ==> 0 <= #[trigger] m[i][j] <= Data::dist_cap(n)
    &&& forall|i: int, j: int| 0 <= i < n && 0 <= j < n ==> #[trigger] m[i][j] == m[j][i]
    &&& forall|i: int| 0 <= i < n ==> (#[trigger] m[i])[i] == 0
}

/// The first failed validation step for `Data::new`, if any.
pub open spec fn new_error(desc: Description, distances: Seq<Seq<i32>>) -> Option<DataError> {
    if !edge_type_ok(desc) {
        Some(DataError::EdgeWeightType)
    } else if desc.capacity <= 0 {
        Some(DataError::NonPositiveCapacity)
    } else if !ids_distinct(desc.nodes@) {
        Some(DataError::DuplicateId)
    } else if !unique_depot(desc.nodes@) {
        Some(DataError::DepotCount)
    } else if !demands_ok(desc.nodes@, desc.capacity) {
        Some(DataError::DemandExceedsCapacity)
    } else if !matrix_ok(distances, desc.nodes@.len() as int) {
        Some(DataError::MatrixShape)
    } else {
        None
    }
}

impl Data {
    /// Number of nodes in the instance.
    pub open spec fn n(self) -> int {
        self.nodes_demand@.len() as int
    }

    /// The distance matrix as a sequence of rows.
    pub open spec fn entries(self) -> Seq<Seq<i32>> {
        matrix_entries(self.distance_matrix)
    }

    /// Distance between two internal indices.
    pub open spec fn dist(self, from: int, to: int) -> int {
        self.entries()[from][to] as int
    }

    /// Demand of an internal index.
    pub open spec fn demand_of(self, x: int) -> int {
        self.nodes_demand@[x] as int
    }

    /// Largest admissible matrix entry for an instance of `n` nodes: a
    /// decoded tour crosses at most `2 * n + 1` edges, so capping each edge
    /// keeps every cost strictly below `i32::MAX`.
    pub open spec fn dist_cap(n: int) -> int {
        (i32::MAX - 1) as int / (2 * n + 1)
    }

    /// The external ids of the instance are pairwise distinct.
    pub open spec fn ids_unique(self) -> bool {
        forall|i: int, j: int|
            #![trigger self.index_to_id@[i], self.index_to_id@[j]]
            0 <= i < j < self.n() ==> (self.index_to_id@[i])@ != (self.index_to_id@[j])@
    }

    /// Well-formedness of a validated instance.
    pub open spec fn wf(self) -> bool {
        &&& 1 <= self.n()
        &&& self.n() <= usize::MAX as int
        &&& (self.depot as int) < self.n()
        &&& self.index_to_id@.len() == self.n()
        &&& self.ids_unique()
        &&& self.capacity > 0
        &&& forall|i: int| 0 <= i < self.n() ==> 0 <= #[trigger] self.demand_of(i) <= self.capacity
        &&& matrix_ok(self.entries(), self.n())
    }

    /// Every element of the path is a node index of this instance.
    pub open spec fn valid_path(self, path: Seq<NodeIndex>) -> bool {
        forall|k: int| 0 <= k < path.len() ==> (#[trigger] path[k]) < self.n()
    }

    /// No element of the path is the depot.
    pub open spec fn non_depot_path(self, path: Seq<NodeIndex>) -> bool {
        forall|k: int| 0 <= k < path.len() ==> (#[trigger] path[k]) != self.depot
    }

    /// Cost of serving the remaining `path` when the vehicle stands at
    /// `prev` with `cargo` capacity left: a stop whose demand does not fit
    /// forces a return to the depot and a reload first; after the last stop
    /// the vehicle returns to the depot.
    pub open spec fn cost_from(self, path: Seq<NodeIndex>, prev: NodeIndex, cargo: int) -> int
        decreases path.len(),
    {
        if path.len() == 0 {
            self.dist(self.depot as int, prev as int)
        } else {
            let x = path[0];
            let d = self.demand_of(x as int);
            if cargo < d {
                self.dist(self.depot as int, prev as int) + self.dist(x as int, self.depot as int)
                    + self.cost_from(path.skip(1), x, self.capacity - d)
            } else {
                self.dist(x as int, prev as int) + self.cost_from(path.skip(1), x, cargo - d)
            }
        }
    }

    /// Total cost of a permutation: the traversal starts at the depot with
    /// full capacity.
    pub open spec fn cost_spec(self, path: Seq<NodeIndex>) -> int {
        self.cost_from(path, self.depot, self.capacity as int)
    }

    /// Lower and upper bounds for `cost_from`: every edge is non-negative
    /// and at most `dist_cap`, and serving `k` stops crosses at most
    /// `2 * k + 1` edges.
    pub proof fn lemma_cost_from_bound(self, path: Seq<NodeIndex>, prev: NodeIndex, cargo: int)
        requires
            self.wf(),
            self.valid_path(path),
            (prev as int) < self.n(),
        ensures
            0 <= self.cost_from(path, prev, cargo),
            self.cost_from(path, prev, cargo) <= (2 * path.len() + 1) * Data::dist_cap(self.n()),
        decreases path.len(),
    {
        let c = Data::dist_cap(self.n());
        assert(0 <= c) by {
            vstd::arithmetic::div_mod::lemma_div_pos_is_pos((i32::MAX - 1) as int, 2 * self.n() + 1);
        }
        if path.len() == 0 {
            assert((2 * path.len() + 1) * c == c) by (nonlinear_arith)
                requires c == Data::dist_cap(self.n()), path.len() == 0,
            ;
        } else {
            let x = path[0];
            let d = self.demand_of(x as int);
            let rest = path.skip(1);
            assert(self.valid_path(rest));
            if cargo < d {
                self.lemma_cost_from_bound(rest, x, self.capacity - d);
            } else {
                self.lemma_cost_from_bound(rest, x, cargo - d);
            }
            assert((2 * (path.len() - 1) + 1) * c + 2 * c == (2 * path.len() + 1) * c)
                by (nonlinear_arith);
        }
    }

    /// The cost of any path over at most `n` stops fits strictly below
    /// `i32::MAX`.
    pub proof fn lemma_cost_spec_bounds(self, path: Seq<NodeIndex>)
        requires
            self.wf(),
            self.valid_path(path),
            path.len() <= self.n(),
        ensures
            0 <= self.cost_spec(path) < i32::MAX,
    {
        let n = self.n();
        let c = Data::dist_cap(n);
        self.lemma_cost_from_bound(path, self.depot, self.capacity as int);
        assert(0 <= c) by {
            vstd::arithmetic::div_mod::lemma_div_pos_is_pos((i32::MAX - 1) as int, 2 * n + 1);
        }
        assert((2 * path.len() + 1) * c <= (2 * n + 1) * c) by (nonlinear_arith)
            requires path.len() <= n, 0 <= c,
        ;
        assert((2 * n + 1) * c <= (i32::MAX - 1) as int) by {
            vstd::arithmetic::div_mod::lemma_fundamental_div_mod((i32::MAX - 1) as int, 2 * n + 1);
            vstd::arithmetic::div_mod::lemma_mod_bound((i32::MAX - 1) as int, 2 * n + 1);
        }
    }

    /// `cost` is a function of the instance and the permutation alone:
    /// identical input always yields the identical cost.
    pub proof fn lemma_cost_deterministic(self, p1: Seq<NodeIndex>, p2: Seq<NodeIndex>)
        requires
            p1 == p2,
        ensures
            self.cost_spec(p1) == self.cost_spec(p2),
    {
    }

    /// Walks the permutation as the decoder does and accumulates the edge
    /// distances; the result is exactly `cost_spec`.
    #[verifier::loop_isolation(false)]
    pub fn calculate_cost(&self, path: &[NodeIndex]) -> (cost: Cost)
        requires
            self.wf(),
            self.valid_path(path@),
            path@.len() <= self.n(),
        ensures
            cost as int == self.cost_spec(path@),
    {
        proof {
            self.lemma_cost_spec_bounds(path@);
        }
        let ghost total = self.cost_spec(path@);
        proof {
            assert(path@.skip(0) =~= path@);
        }
        let mut cost: i32 = 0;
        let mut previous_n: usize = self.depot;
        let mut current_cargo: i32 = self.capacity;
        let mut k: usize = 0;
        while k < path.len()
            invariant
                k <= path@.len(),
                (previous_n as int) < self.n(),
                0 <= current_cargo <= self.capacity,
                0 <= cost,
                cost as int + self.cost_from(path@.skip(k as int), previous_n, current_cargo as int)
                    == total,
            decreases path@.len() - k,
        {
            let x = path[k];
            let d = self.nodes_demand[x];
            proof {
                assert(path@.skip(k as int)[0] == path@[k as int]);
                assert(path@.skip(k as int).skip(1) =~= path@.skip(k as int + 1));
            }
            if current_cargo < d {
                proof {
                    self.lemma_cost_from_bound(
                        path@.skip(k as int + 1),
                        x,
                        (self.capacity - d) as int,
                    );
                }
                current_cargo = self.capacity;
                cost = cost + matrix_get(&self.distance_matrix, self.depot, previous_n);
                previous_n = self.depot;
                cost = cost + matrix_get(&self.distance_matrix, x, previous_n);
            } else {
                proof {
                    self.lemma_cost_from_bound(
                        path@.skip(k as int + 1),
                        x,
                        (current_cargo - d) as int,
                    );
                }
                cost = cost + matrix_get(&self.distance_matrix, x, previous_n);
            }
            current_cargo = current_cargo - d;
            previous_n = x;
            k = k + 1;
        }
        proof {
            assert(path@.skip(k as int) =~= Seq::<NodeIndex>::empty());
        }
        cost + matrix_get(&self.distance_matrix, self.depot, previous_n)
    }
}

/// Prefixes `x` to the first (currently open) route of `rs`.
pub open spec fn prepend_first(x: NodeIndex, rs: Seq<Seq<NodeIndex>>) -> Seq<Seq<NodeIndex>>
    recommends
        rs.len() >= 1,
{
    seq![seq![x] + rs[0]] + rs.skip(1)
}

/// Joins the already closed routes, the open route collected so far, and
/// the routes still to come (whose first element continues the open route).
pub open spec fn merge_routes(
    completed: Seq<Seq<NodeIndex>>,
    cur: Seq<NodeIndex>,
    rs: Seq<Seq<NodeIndex>>,
) -> Seq<Seq<NodeIndex>>
    recommends
        rs.len() >= 1,
{
    completed + seq![cur + rs[0]] + rs.skip(1)
}

impl Data {
    /// The customer interiors of the routes that serve the remaining `path`
    /// with `cargo` capacity left on the current trip: a stop that does not
    /// fit closes the current route and opens a fresh one.
    pub open spec fn routes_from(self, path: Seq<NodeIndex>, cargo: int) -> Seq<Seq<NodeIndex>>
        decreases path.len(),
    {
        if path.len() == 0 {
            seq![Seq::<NodeIndex>::empty()]
        } else {
            let x = path[0];
            let d = self.demand_of(x as int);
            if cargo < d {
                seq![Seq::<NodeIndex>::empty()] + prepend_first(
                    x,
                    self.routes_from(path.skip(1), self.capacity - d),
                )
            } else {
                prepend_first(x, self.routes_from(path.skip(1), cargo - d))
            }
        }
    }

    /// The decoded route interiors of a permutation, starting at the depot
    /// with full capacity.
    pub open spec fn decode_spec(self, path: Seq<NodeIndex>) -> Seq<Seq<NodeIndex>> {
        self.routes_from(path, self.capacity as int)
    }

    /// Sum of the demands of one route interior.
    pub open spec fn route_demand(self, route: Seq<NodeIndex>) -> int
        decreases route.len(),
    {
        if route.len() == 0 {
            0
        } else {
            self.demand_of(route[0] as int) + self.route_demand(route.skip(1))
        }
    }

    /// External id of an internal index, as a character sequence.
    pub open spec fn id_of(self, x: int) -> Seq<char> {
        self.index_to_id@[x]@
    }

    /// One route as the caller sees it: the external ids of its stops,
    /// opened and closed by the depot id.
    pub open spec fn route_ids(self, r: Seq<NodeIndex>) -> Seq<Seq<char>> {
        seq![self.id_of(self.depot as int)] + r.map_values(|x: NodeIndex| self.id_of(x as int))
            + seq![self.id_of(self.depot as int)]
    }

    /// The full decoded route plan of a permutation, in external ids.
    pub open spec fn route_plan_spec(self, path: Seq<NodeIndex>) -> Seq<Seq<Seq<char>>> {
        self.decode_spec(path).map_values(|r: Seq<NodeIndex>| self.route_ids(r))
    }

    /// Decoding always produces at least one (possibly empty) route.
    pub proof fn lemma_routes_from_len(self, path: Seq<NodeIndex>, cargo: int)
        ensures
            self.routes_from(path, cargo).len() >= 1,
        decreases path.len(),
    {
        if path.len() > 0 {
            let x = path[0];
            let d = self.demand_of(x as int);
            if cargo < d {
                self.lemma_routes_from_len(path.skip(1), self.capacity - d);
            } else {
                self.lemma_routes_from_len(path.skip(1), cargo - d);
            }
        }
    }

    /// The decoded routes, concatenated in order with the depot boundaries
    /// collapsed, visit exactly the nodes of the permutation in its order.
    pub proof fn lemma_decode_covers_path(self, path: Seq<NodeIndex>, cargo: int)
        ensures
            self.routes_from(path, cargo).flatten() == path,
        decreases path.len(),
    {
        let rs = self.routes_from(path, cargo);
        if path.len() == 0 {
            assert(rs.drop_first() =~= Seq::<Seq<NodeIndex>>::empty());
            assert(Seq::<Seq<NodeIndex>>::empty().flatten() =~= Seq::<NodeIndex>::empty());
            assert(rs.flatten() == rs.first() + rs.drop_first().flatten());
            assert(rs.first() =~= Seq::<NodeIndex>::empty());
            assert(rs.flatten() =~= path);
        } else {
            let x = path[0];
            let d = self.demand_of(x as int);
            let next_cargo = if cargo < d {
                self.capacity - d
            } else {
                cargo - d
            };
            let rest = self.routes_from(path.skip(1), next_cargo);
            self.lemma_decode_covers_path(path.skip(1), next_cargo);
            self.lemma_routes_from_len(path.skip(1), next_cargo);
            let pf = prepend_first(x, rest);
            assert(rest.first() == rest[0]);
            assert(rest.drop_first() =~= rest.skip(1));
            assert(pf.first() == seq![x] + rest[0]);
            assert(pf.drop_first() =~= rest.skip(1));
            assert(pf.flatten() == (seq![x] + rest[0]) + rest.skip(1).flatten());
            assert(rest.flatten() == rest[0] + rest.skip(1).flatten());
            assert(pf.flatten() =~= seq![x] + rest.flatten());
            if cargo < d {
                assert(rs.first() =~= Seq::<NodeIndex>::empty());
                assert(rs.drop_first() =~= pf);
                assert(rs.flatten() == rs.first() + pf.flatten());
                assert(rs.flatten() =~= path);
            } else {
                assert(rs =~= pf);
                assert(rs.flatten() =~= path);
            }
        }
    }

    /// Decoding respects the vehicle: the open route's demands sum to at
    /// most the remaining cargo, every closed route's to at most the full
    /// capacity.
    pub proof fn lemma_routes_capacity(self, path: Seq<NodeIndex>, cargo: int)
        requires
            self.wf(),
            self.valid_path(path),
            0 <= cargo <= self.capacity,
        ensures
            self.route_demand(self.routes_from(path, cargo)[0]) <= cargo,
            forall|k: int|
                1 <= k < self.routes_from(path, cargo).len() ==> self.route_demand(
                    #[trigger] self.routes_from(path, cargo)[k],
                ) <= self.capacity,
        decreases path.len(),
    {
        let rs = self.routes_from(path, cargo);
        if path.len() == 0 {
        } else {
            let x = path[0];
            let d = self.demand_of(x as int);
            assert(0 <= d <= self.capacity);
            assert(self.valid_path(path.skip(1)));
            let next_cargo = if cargo < d {
                self.capacity - d
            } else {
                cargo - d
            };
            let rest = self.routes_from(path.skip(1), next_cargo);
            self.lemma_routes_capacity(path.skip(1), next_cargo);
            self.lemma_routes_from_len(path.skip(1), next_cargo);
            let pf = prepend_first(x, rest);
            assert((seq![x] + rest[0]).skip(1) =~= rest[0]);
            assert(self.route_demand(pf[0]) == d + self.route_demand(rest[0]));
            assert(forall|k: int| 1 <= k < pf.len() ==> pf[k] == rest[k]);
            if cargo < d {
                assert(rs[0] =~= Seq::<NodeIndex>::empty());
                assert(forall|k: int| 1 <= k < rs.len() ==> rs[k] == pf[k - 1]);
                assert(self.route_demand(rs[1]) <= self.capacity);
            } else {
                assert(rs == pf);
            }
        }
    }

    /// Every route of a decoded permutation carries total demand at most
    /// the vehicle capacity.
    pub proof fn lemma_decode_respects_capacity(self, path: Seq<NodeIndex>)
        requires
            self.wf(),
            self.valid_path(path),
        ensures
            forall|k: int|
                0 <= k < self.decode_spec(path).len() ==> self.route_demand(
                    #[trigger] self.decode_spec(path)[k],
                ) <= self.capacity,
    {
        self.lemma_routes_capacity(path, self.capacity as int);
    }

    /// Apart from the still-open first route, every route the traversal
    /// closes has served at least one stop.
    pub proof fn lemma_routes_from_tail_nonempty(self, path: Seq<NodeIndex>, cargo: int)
        requires
            self.wf(),
            self.valid_path(path),
        ensures
            forall|k: int|
                1 <= k < self.routes_from(path, cargo).len() ==> (#[trigger] self.routes_from(
                    path,
                    cargo,
                )[k]).len() > 0,
        decreases path.len(),
    {
        let rs = self.routes_from(path, cargo);
        if path.len() > 0 {
            let x = path[0];
            let d = self.demand_of(x as int);
            let next_cargo = if cargo < d {
                self.capacity - d
            } else {
                cargo - d
            };
            let rest = self.routes_from(path.skip(1), next_cargo);
            assert(self.valid_path(path.skip(1)));
            self.lemma_routes_from_tail_nonempty(path.skip(1), next_cargo);
            self.lemma_routes_from_len(path.skip(1), next_cargo);
            let pf = prepend_first(x, rest);
            assert(pf[0].len() > 0);
            assert(forall|k: int| 1 <= k < pf.len() ==> pf[k] == rest[k]);
            if cargo < d {
                assert(forall|k: int| 1 <= k < rs.len() ==> rs[k] == pf[k - 1]);
            }
        }
    }

    /// A non-empty permutation of customers decodes with no empty route:
    /// starting from full capacity, every route of the plan serves at least
    /// one stop.
    pub proof fn lemma_decode_routes_nonempty(self, path: Seq<NodeIndex>)
        requires
            self.wf(),
            self.valid_path(path),
            path.len() > 0,
        ensures
            forall|k: int|
                0 <= k < self.decode_spec(path).len() ==> (#[trigger] self.decode_spec(
                    path,
                )[k]).len() > 0,
    {
        let rs = self.decode_spec(path);
        let x = path[0];
        let d = self.demand_of(x as int);
        assert(d <= self.capacity);
        let rest = self.routes_from(path.skip(1), self.capacity - d);
        assert(self.valid_path(path.skip(1)));
        self.lemma_routes_from_len(path.skip(1), self.capacity - d);
        self.lemma_routes_from_tail_nonempty(path.skip(1), self.capacity - d);
        let pf = prepend_first(x, rest);
        assert(rs == pf);
        assert(rs[0].len() > 0);
        assert(forall|k: int| 1 <= k < pf.len() ==> pf[k] == rest[k]);
    }

    /// With the instance's pairwise distinct external ids, a duplicate-free
    /// permutation decodes to routes whose stop ids never collide: no
    /// interior stop carries the depot id, and the interiors' ids,
    /// concatenated in route order, are pairwise distinct — so every
    /// visited external id appears in exactly one route, exactly once, and
    /// the depot id stands only at the two ends of each route.
    pub proof fn lemma_route_plan_ids_unique(self, path: Seq<NodeIndex>)
        requires
            self.wf(),
            self.valid_path(path),
            self.non_depot_path(path),
            path.no_duplicates(),
        ensures
            forall|k: int|
                0 <= k < path.len() ==> self.id_of((#[trigger] path[k]) as int) != self.id_of(
                    self.depot as int,
                ),
            path.map_values(|x: NodeIndex| self.id_of(x as int)).no_duplicates(),
    {
        assert forall|k: int| 0 <= k < path.len() implies self.id_of((#[trigger] path[k]) as int)
            != self.id_of(self.depot as int) by {
            let x = path[k] as int;
            let dep = self.depot as int;
            if x < dep {
                assert((self.index_to_id@[x])@ != (self.index_to_id@[dep])@);
            } else {
                assert((self.index_to_id@[dep])@ != (self.index_to_id@[x])@);
            }
        }
        let mapped = path.map_values(|x: NodeIndex| self.id_of(x as int));
        assert forall|k1: int, k2: int|
            0 <= k1 < mapped.len() && 0 <= k2 < mapped.len() && k1 != k2 implies mapped[k1]
            != mapped[k2] by {
            let x1 = path[k1] as int;
            let x2 = path[k2] as int;
            assert(path[k1] != path[k2]);
            if x1 < x2 {
                assert((self.index_to_id@[x1])@ != (self.index_to_id@[x2])@);
            } else {
                assert((self.index_to_id@[x2])@ != (self.index_to_id@[x1])@);
            }
        }
    }

    /// Decodes a permutation into the route plan: the identical traversal
    /// as `calculate_cost`, but recording external ids, each route opened
    /// and closed by the depot id.
    #[verifier::loop_isolation(false)]
    pub fn indices_path_to_index(&self, path: &[NodeIndex]) -> (res: Vec<Vec<String>>)
        requires
            self.wf(),
            self.valid_path(path@),
            self.non_depot_path(path@),
        ensures
            res.deep_view() == self.route_plan_spec(path@),
    {
        proof {
            self.lemma_routes_from_len(path@, self.capacity as int);
            assert(path@.skip(0) =~= path@);
        }
        let mut res: Vec<Vec<String>> = Vec::new();
        let mut cur: Vec<String> = Vec::new();
        cur.push(self.index_to_id[self.depot].clone());
        let mut current_cargo: i32 = self.capacity;
        let ghost mut completed_idx: Seq<Seq<NodeIndex>> = Seq::empty();
        let ghost mut cur_idx: Seq<NodeIndex> = Seq::empty();
        proof {
            let rs = self.routes_from(path@, self.capacity as int);
            assert(merge_routes(completed_idx, cur_idx, rs) =~= rs);
        }
        let mut k: usize = 0;
        while k < path.len()
            invariant
                k <= path@.len(),
                0 <= current_cargo <= self.capacity,
                res@.len() == completed_idx.len(),
                forall|t: int|
                    0 <= t < completed_idx.len() ==> (#[trigger] res@[t]).deep_view()
                        == self.route_ids(completed_idx[t]),
                cur@.len() == cur_idx.len() + 1,
                cur@[0]@ == self.id_of(self.depot as int),
                forall|j: int|
                    0 <= j < cur_idx.len() ==> cur@[j + 1]@ == self.id_of(
                        (#[trigger] cur_idx[j]) as int,
                    ),
                self.decode_spec(path@) == merge_routes(
                    completed_idx,
                    cur_idx,
                    self.routes_from(path@.skip(k as int), current_cargo as int),
                ),
            decreases path@.len() - k,
        {
            let x = path[k];
            let d = self.nodes_demand[x];
            let ghost rs_here = self.routes_from(path@.skip(k as int), current_cargo as int);
            proof {
                assert(path@.skip(k as int)[0] == path@[k as int]);
                assert(path@.skip(k as int).skip(1) =~= path@.skip(k as int + 1));
            }
            if current_cargo < d {
                let ghost rest = self.routes_from(
                    path@.skip(k as int + 1),
                    (self.capacity - d) as int,
                );
                proof {
                    self.lemma_routes_from_len(path@.skip(k as int + 1), (self.capacity - d) as int);
                    assert(rs_here =~= seq![Seq::<NodeIndex>::empty()] + prepend_first(x, rest));
                }
                cur.push(self.index_to_id[self.depot].clone());
                proof {
                    assert(cur.deep_view() =~~= self.route_ids(cur_idx)) by {
                        let ids = self.route_ids(cur_idx);
                        let mapped = cur_idx.map_values(|x0: NodeIndex| self.id_of(x0 as int));
                        assert(cur.deep_view().len() == ids.len());
                        assert forall|j: int| 0 <= j < cur@.len() implies cur.deep_view()[j]
                            == ids[j] by {
                            if 1 <= j && j <= cur_idx.len() {
                                assert(ids[j] == mapped[j - 1]);
                                assert(cur@[j]@ == self.id_of(cur_idx[j - 1] as int));
                            }
                        }
                    }
                }
                res.push(cur);
                cur = Vec::new();
                cur.push(self.index_to_id[self.depot].clone());
                proof {
                    let old_completed = completed_idx;
                    let old_cur = cur_idx;
                    completed_idx = completed_idx.push(cur_idx);
                    cur_idx = Seq::empty();
                    assert(merge_routes(old_completed, old_cur, rs_here) =~= merge_routes(
                        completed_idx,
                        cur_idx,
                        prepend_first(x, rest),
                    ));
                }
                current_cargo = self.capacity;
            }
            let ghost rest = self.routes_from(path@.skip(k as int + 1), (current_cargo - d) as int);
            proof {
                self.lemma_routes_from_len(path@.skip(k as int + 1), (current_cargo - d) as int);
            }
            cur.push(self.index_to_id[x].clone());
            proof {
                let old_cur = cur_idx;
                cur_idx = cur_idx.push(x);
                assert(self.routes_from(path@.skip(k as int), current_cargo as int)
                    == prepend_first(x, rest));
                assert(prepend_first(x, rest).skip(1) =~= rest.skip(1));
                assert(old_cur + prepend_first(x, rest)[0] =~= cur_idx + rest[0]);
                assert(merge_routes(completed_idx, old_cur, prepend_first(x, rest)) =~~= merge_routes(
                    completed_idx,
                    cur_idx,
                    rest,
                ));
            }
            current_cargo = current_cargo - d;
            k = k + 1;
        }
        proof {
            assert(path@.skip(k as int) =~= Seq::<NodeIndex>::empty());
        }
        cur.push(self.index_to_id[self.depot].clone());
        proof {
            assert(cur.deep_view() =~~= self.route_ids(cur_idx)) by {
                let ids = self.route_ids(cur_idx);
                let mapped = cur_idx.map_values(|x0: NodeIndex| self.id_of(x0 as int));
                assert(cur.deep_view().len() == ids.len());
                assert forall|j: int| 0 <= j < cur@.len() implies cur.deep_view()[j] == ids[j] by {
                    if 1 <= j && j <= cur_idx.len() {
                        assert(ids[j] == mapped[j - 1]);
                        assert(cur@[j]@ == self.id_of(cur_idx[j - 1] as int));
                    }
                }
            }
        }
        res.push(cur);
        proof {
            let rs_end = self.routes_from(Seq::<NodeIndex>::empty(), current_cargo as int);
            assert(merge_routes(completed_idx, cur_idx, rs_end) =~= completed_idx.push(cur_idx));
            assert(self.decode_spec(path@) == completed_idx.push(cur_idx));
            let plan = self.route_plan_spec(path@);
            assert(res.deep_view() =~~= plan) by {
                assert(plan.len() == self.decode_spec(path@).len());
                assert(res.deep_view().len() == plan.len());
                assert forall|t: int| 0 <= t < res@.len() implies res.deep_view()[t] == plan[t] by {
                    assert(plan[t] == self.route_ids(self.decode_spec(path@)[t]));
                    assert(res.deep_view()[t] == res@[t].deep_view());
                }
            }
        }
        res
    }
}

/// The internal index order: the external ids in the order the description
/// lists its nodes.
#[verifier::loop_isolation(false)]
pub fn order_of_nodes(desc: &Description) -> (ids: Vec<String>)
    ensures
        ids.deep_view() == desc.nodes@.map_values(|e: NodeEntry| e.id@),
{
    let mut ids: Vec<String> = Vec::new();
    let mut i: usize = 0;
    while i < desc.nodes.len()
        invariant
            i <= desc.nodes@.len(),
            ids@.len() == i,
            forall|j: int| 0 <= j < i ==> (#[trigger] ids@[j])@ == desc.nodes@[j].id@,
        decreases desc.nodes@.len() - i,
    {
        ids.push(desc.nodes[i].id.clone());
        i = i + 1;
    }
    proof {
        let mapped = desc.nodes@.map_values(|e: NodeEntry| e.id@);
        assert(ids.deep_view() =~~= mapped) by {
            assert(ids.deep_view().len() == mapped.len());
            assert(forall|j: int| 0 <= j < ids@.len() ==> ids.deep_view()[j] == (
            #[trigger] ids@[j])@);
        }
    }
    ids
}

/// Looks for the unique entry flagged as the depot; rejects a node set with
/// none or with more than one.
#[verifier::loop_isolation(false)]
pub fn get_depot(nodes: &Vec<NodeEntry>) -> (r: Result<usize, DataError>)
    ensures
        match r {
            Ok(i) => i < nodes@.len() && nodes@[i as int].node.is_depot && (forall|j: int|
                0 <= j < nodes@.len() && j != i ==> !(#[trigger] nodes@[j]).node.is_depot)
                && unique_depot(nodes@),
            Err(e) => e == DataError::DepotCount && !unique_depot(nodes@),
        },
{
    let mut found: Option<usize> = None;
    let mut i: usize = 0;
    while i < nodes.len()
        invariant
            i <= nodes@.len(),
            match found {
                Some(f) => f < i && nodes@[f as int].node.is_depot && (forall|j: int|
                    0 <= j < i && j != f ==> !(#[trigger] nodes@[j]).node.is_depot),
                None => forall|j: int| 0 <= j < i ==> !(#[trigger] nodes@[j]).node.is_depot,
            },
        decreases nodes@.len() - i,
    {
        if nodes[i].node.is_depot {
            match found {
                Some(f) => {
                    proof {
                        assert(!unique_depot(nodes@)) by {
                            assert forall|c: int|
                                0 <= c < nodes@.len() && (#[trigger] nodes@[c]).node.is_depot
                                    implies !(forall|j: int|
                                0 <= j < nodes@.len() && j != c ==> !(
                                #[trigger] nodes@[j]).node.is_depot) by {
                                if c == f as int {
                                    assert(nodes@[i as int].node.is_depot);
                                } else {
                                    assert(nodes@[f as int].node.is_depot);
                                }
                            }
                        }
                    }
                    return Err(DataError::DepotCount);
                },
                None => {
                    found = Some(i);
                },
            }
        }
        i = i + 1;
    }
    match found {
        Some(f) => Ok(f),
        None => Err(DataError::DepotCount),
    }
}

/// The demand vector in internal index order.
#[verifier::loop_isolation(false)]
pub fn get_node_demand(nodes: &Vec<NodeEntry>) -> (demands: Vec<i32>)
    ensures
        demands@ == nodes@.map_values(|e: NodeEntry| e.node.demand),
{
    let mut demands: Vec<i32> = Vec::new();
    let mut i: usize = 0;
    while i < nodes.len()
        invariant
            i <= nodes@.len(),
            demands@ =~= nodes@.take(i as int).map_values(|e: NodeEntry| e.node.demand),
        decreases nodes@.len() - i,
    {
        demands.push(nodes[i].node.demand);
        proof {
            assert(nodes@.take(i as int + 1) =~= nodes@.take(i as int).push(nodes@[i as int]));
        }
        i = i + 1;
    }
    proof {
        assert(nodes@.take(i as int) =~= nodes@);
    }
    demands
}

impl Data {
    /// Validates a raw description against the precomputed rounded distance
    /// matrix and builds the instance. Each fatal condition is reported as
    /// its own error, checked in a fixed order.
    #[verifier::loop_isolation(false)]
    pub fn new(desc: &Description, distances: &Vec<Vec<i32>>) -> (r: Result<Data, DataError>)
        ensures
            r.is_ok() <==> new_error(*desc, distances.deep_view()) is None,
            r matches Err(e) ==> Some(e) == new_error(*desc, distances.deep_view()),
            r matches Ok(d) ==> {
                &&& d.wf()
                &&& d.n() == desc.nodes@.len()
                &&& d.capacity == desc.capacity
                &&& (d.depot as int) < desc.nodes@.len()
                &&& desc.nodes@[d.depot as int].node.is_depot
                &&& d.nodes_demand@ == desc.nodes@.map_values(|e: NodeEntry| e.node.demand)
                &&& d.index_to_id.deep_view() == desc.nodes@.map_values(|e: NodeEntry| e.id@)
                &&& d.entries() == distances.deep_view()
            },
    {
        let expected: String = "EUC_2D".to_owned();
        if !(desc.edge_weight_type == expected) {
            return Err(DataError::EdgeWeightType);
        }
        if desc.capacity <= 0 {
            return Err(DataError::NonPositiveCapacity);
        }
        let mut a: usize = 1;
        while a < desc.nodes.len()
            invariant
                1 <= a <= desc.nodes@.len() + 1,
                forall|i: int, j: int|
                    #![trigger desc.nodes@[i], desc.nodes@[j]]
                    0 <= i < j < a ==> (desc.nodes@[i]).id@ != (desc.nodes@[j]).id@,
            decreases desc.nodes@.len() + 1 - a,
        {
            let mut b: usize = 0;
            while b < a
                invariant
                    b <= a < desc.nodes@.len(),
                    forall|j: int|
                        0 <= j < b ==> (#[trigger] desc.nodes@[j]).id@ != (desc.nodes@[
                            a as int
                        ]).id@,
                decreases a - b,
            {
                if desc.nodes[b].id == desc.nodes[a].id {
                    return Err(DataError::DuplicateId);
                }
                b = b + 1;
            }
            a = a + 1;
        }
        let depot = match get_depot(&desc.nodes) {
            Ok(d) => d,
            Err(e) => {
                return Err(e);
            },
        };
        let n = desc.nodes.len();
        let mut i: usize = 0;
        while i < n
            invariant
                i <= n,
                n == desc.nodes@.len(),
                desc.capacity > 0,
                forall|j: int|
                    0 <= j < i ==> 0 <= (#[trigger] desc.nodes@[j]).node.demand <= desc.capacity,
            decreases n - i,
        {
            let dem = desc.nodes[i].node.demand;
            if dem < 0 || dem > desc.capacity {
                return Err(DataError::DemandExceedsCapacity);
            }
            i = i + 1;
        }
        if !matrix_rows_ok(distances, n) {
            return Err(DataError::MatrixShape);
        }
        let demands = get_node_demand(&desc.nodes);
        let ids = order_of_nodes(desc);
        proof {
            let m = distances.deep_view();
            assert(m.len() == distances@.len());
            assert(forall|q: int| 0 <= q < distances@.len() ==> (#[trigger] distances@[q])@ == m[q]);
            assert(demands@.len() == desc.nodes@.len());
            assert(ids.deep_view().len() == ids@.len());
            assert(ids@.len() == desc.nodes@.len());
            assert forall|q: int| 0 <= q < ids@.len() implies (#[trigger] ids@[q])@
                == desc.nodes@[q].id@ by {
                assert(ids.deep_view()[q] == desc.nodes@.map_values(|e: NodeEntry| e.id@)[q]);
            }
            assert(forall|q: int|
                0 <= q < demands@.len() ==> #[trigger] demands@[q]
                    == desc.nodes@[q].node.demand);
        }
        let matrix = matrix_from_rows(distances);
        Ok(Data {
            distance_matrix: matrix,
            depot,
            nodes_demand: demands,
            capacity: desc.capacity,
            index_to_id: ids,
        })
    }
}

/// Checks that `rows` is a symmetric `n` by `n` matrix with zero diagonal
/// whose entries lie in `[0, Data::dist_cap(n)]`.
#[verifier::loop_isolation(false)]
pub fn matrix_rows_ok(rows: &Vec<Vec<i32>>, n: usize) -> (ok: bool)
    ensures
        ok == matrix_ok(rows.deep_view(), n as int),
{
    let ghost m = rows.deep_view();
    proof {
        assert(m.len() == rows@.len());
        assert(forall|q: int| 0 <= q < rows@.len() ==> (#[trigger] rows@[q])@ == m[q]);
    }
    if rows.len() != n {
        return false;
    }
    if n == 0 {
        proof {
            assert(matrix_ok(m, 0));
        }
        return true;
    }
    let denom: u128 = 2 * (n as u128) + 1;
    let cap128: u128 = ((i32::MAX - 1) as u128) / denom;
    proof {
        assert(cap128 as int == Data::dist_cap(n as int));
    }
    let mut i: usize = 0;
    while i < n
        invariant
            i <= n,
            n == m.len(),
            cap128 as int == Data::dist_cap(n as int),
            forall|a: int| 0 <= a < i ==> (#[trigger] m[a]).len() == n,
            forall|a: int, b: int|
                0 <= a < i && 0 <= b < n ==> 0 <= #[trigger] m[a][b] <= Data::dist_cap(n as int),
            forall|a: int, b: int| 0 <= a < i && 0 <= b < n ==> #[trigger] m[a][b] == m[b][a],
            forall|a: int| 0 <= a < i ==> (#[trigger] m[a])[a] == 0,
        decreases n - i,
    {
        let row = &rows[i];
        if row.len() != n {
            return false;
        }
        let mut j: usize = 0;
        while j < n
            invariant
                j <= n,
                i < n,
                n == m.len(),
                m[i as int].len() == n,
                cap128 as int == Data::dist_cap(n as int),
                forall|b: int| 0 <= b < j ==> 0 <= #[trigger] m[i as int][b] <= Data::dist_cap(
                    n as int,
                ),
                forall|b: int| 0 <= b < j ==> #[trigger] m[i as int][b] == m[b][i as int],
                m[i as int].len() == n,
                i < j ==> m[i as int][i as int] == 0,
            decreases n - j,
        {
            let v = rows[i][j];
            if v < 0 {
                return false;
            }
            if (v as u128) > cap128 {
                return false;
            }
            if rows[j].len() != n {
                return false;
            }
            if v != rows[j][i] {
                return false;
            }
            if j == i && v != 0 {
                return false;
            }
            j = j + 1;
        }
        i = i + 1;
    }
    proof {
        assert(matrix_ok(m, n as int));
    }
    true
}

} // verus!

use cvrp_genetic::data::{get_depot, get_node_demand, order_of_nodes, Data, DataError};
use cvrp_genetic::description::{Description, Node, NodeEntry};

fn entry(id: &str, demand: i32, is_depot: bool) -> NodeEntry {
    NodeEntry {
        id: id.to_string(),
        node: Node { demand, is_depot },
    }
}

/// Depot D at the origin and customers A, B, C at x = 1, 2, 3 on a line,
/// each with demand 3, vehicle capacity 6.
fn line_instance() -> (Description, Vec<Vec<i32>>) {
    let nodes = vec![
        entry("D", 0, true),
        entry("A", 3, false),
        entry("B", 3, false),
        entry("C", 3, false),
    ];
    let desc = Description {
        capacity: 6,
        edge_weight_type: "EUC_2D".to_string(),
        nodes,
    };
    let matrix = vec![
        vec![0, 1, 2, 3],
        vec![1, 0, 1, 2],
        vec![2, 1, 0, 1],
        vec![3, 2, 1, 0],
    ];
    (desc, matrix)
}

#[test]
fn end_to_end_line_instance() {
    let (desc, matrix) = line_instance();
    let data = Data::new(&desc, &matrix).unwrap();
    assert_eq!(data.depot, 0);
    assert_eq!(data.capacity, 6);
    // D -> A -> B -> D is 1 + 1 + 2 = 4, D -> C -> D is 3 + 3 = 6.
    let cost = data.calculate_cost(&[1, 2, 3]);
    assert_eq!(cost, 10);
    let plan = data.indices_path_to_index(&[1, 2, 3]);
    assert_eq!(
        plan,
        vec![
            vec!["D".to_string(), "A".to_string(), "B".to_string(), "D".to_string()],
            vec!["D".to_string(), "C".to_string(), "D".to_string()],
        ]
    );
}

#[test]
fn cost_is_deterministic() {
    let (desc, matrix) = line_instance();
    let data = Data::new(&desc, &matrix).unwrap();
    for perm in [[1usize, 2, 3], [3, 1, 2], [2, 3, 1]] {
        let first = data.calculate_cost(&perm);
        let second = data.calculate_cost(&perm);
        assert_eq!(first, second);
    }
}

#[test]
fn cost_of_empty_path_is_zero() {
    let (desc, matrix) = line_instance();
    let data = Data::new(&desc, &matrix).unwrap();
    assert_eq!(data.calculate_cost(&[]), 0);
}

#[test]
fn decode_covers_permutation_in_order() {
    let (desc, matrix) = line_instance();
    let data = Data::new(&desc, &matrix).unwrap();
    for perm in [vec![1usize, 2, 3], vec![3, 1, 2], vec![2, 1, 3]] {
        let plan = data.indices_path_to_index(&perm);
        let mut collapsed: Vec<String> = Vec::new();
        for route in &plan {
            // depot at both ends and at least one customer stop between
            assert!(route.len() >= 3);
            assert_eq!(route.first().unwrap(), "D");
            assert_eq!(route.last().unwrap(), "D");
            collapsed.extend(route[1..route.len() - 1].iter().cloned());
        }
        let expected: Vec<String> =
            perm.iter().map(|&i| desc.nodes[i].id.clone()).collect();
        assert_eq!(collapsed, expected);
    }
}

#[test]
fn decode_respects_capacity() {
    let (desc, matrix) = line_instance();
    let data = Data::new(&desc, &matrix).unwrap();
    for perm in [vec![1usize, 2, 3], vec![3, 2, 1], vec![2, 3, 1]] {
        let plan = data.indices_path_to_index(&perm);
        for route in &plan {
            let load: i32 = route[1..route.len() - 1]
                .iter()
                .map(|id| {
                    desc.nodes
                        .iter()
                        .find(|e| &e.id == id)
                        .unwrap()
                        .node
                        .demand
                })
                .sum();
            assert!(load <= data.capacity);
        }
    }
}

#[test]
fn order_of_nodes_keeps_listing_order() {
    let (desc, _) = line_instance();
    let ids = order_of_nodes(&desc);
    assert_eq!(
        ids,
        vec!["D".to_string(), "A".to_string(), "B".to_string(), "C".to_string()]
    );
}

#[test]
fn get_depot_finds_unique_depot() {
    let (desc, _) = line_instance();
    assert_eq!(get_depot(&desc.nodes), Ok(0));
    let shuffled = vec![
        entry("A", 3, false),
        entry("D", 0, true),
        entry("B", 3, false),
    ];
    assert_eq!(get_depot(&shuffled), Ok(1));
}

#[test]
fn get_node_demand_lists_demands_in_order() {
    let (desc, _) = line_instance();
    assert_eq!(get_node_demand(&desc.nodes), vec![0, 3, 3, 3]);
}

#[test]
fn rejects_wrong_edge_weight_type() {
    let (mut desc, matrix) = line_instance();
    desc.edge_weight_type = "GEO".to_string();
    assert!(matches!(Data::new(&desc, &matrix), Err(DataError::EdgeWeightType)));
}

#[test]
fn rejects_non_positive_capacity() {
    let (mut desc, matrix) = line_instance();
    desc.capacity = 0;
    assert!(matches!(Data::new(&desc, &matrix), Err(DataError::NonPositiveCapacity)));
}

#[test]
fn rejects_duplicate_ids() {
    let (mut desc, matrix) = line_instance();
    desc.nodes[2].id = "A".to_string();
    assert!(matches!(Data::new(&desc, &matrix), Err(DataError::DuplicateId)));
}

#[test]
fn rejects_missing_depot() {
    let (mut desc, matrix) = line_instance();
    desc.nodes[0].node.is_depot = false;
    assert!(matches!(Data::new(&desc, &matrix), Err(DataError::DepotCount)));
}

#[test]
fn rejects_two_depots() {
    let (mut desc, matrix) = line_instance();
    desc.nodes[2].node.is_depot = true;
    assert!(matches!(Data::new(&desc, &matrix), Err(DataError::DepotCount)));
}

#[test]
fn rejects_demand_above_capacity() {
    let (mut desc, matrix) = line_instance();
    desc.nodes[1].node.demand = 7;
    assert!(matches!(Data::new(&desc, &matrix), Err(DataError::DemandExceedsCapacity)));
}

#[test]
fn rejects_negative_demand() {
    let (mut desc, matrix) = line_instance();
    desc.nodes[1].node.demand = -1;
    assert!(matches!(Data::new(&desc, &matrix), Err(DataError::DemandExceedsCapacity)));
}

#[test]
fn rejects_bad_matrices() {
    let (desc, good) = line_instance();

    let mut not_square = good.clone();
    not_square.pop();
    assert!(matches!(Data::new(&desc, &not_square), Err(DataError::MatrixShape)));

    let mut asymmetric = good.clone();
    asymmetric[0][1] = 5;
    assert!(matches!(Data::new(&desc, &asymmetric), Err(DataError::MatrixShape)));

    let mut bad_diagonal = good.clone();
    bad_diagonal[2][2] = 1;
    assert!(matches!(Data::new(&desc, &bad_diagonal), Err(DataError::MatrixShape)));

    let mut negative = good.clone();
    negative[0][1] = -2;
    negative[1][0] = -2;
    assert!(matches!(Data::new(&desc, &negative), Err(DataError::MatrixShape)));

    let mut huge = good.clone();
    huge[0][3] = i32::MAX;
    huge[3][0] = i32::MAX;
    assert!(matches!(Data::new(&desc, &huge), Err(DataError::MatrixShape)));
}

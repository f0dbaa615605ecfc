use std::collections::HashMap;

use oxidd_viz::layered_layout::EdgeData;
use oxidd_viz::relate_elements::find_deleted_edges;

fn edge(to: usize) -> EdgeData {
    EdgeData { to, from_level: 1, to_level: 2, edge_type: 0 }
}

#[test]
fn deleted_edges_are_renamed_and_marked_when_both_ends_hide_together() {
    let old_edges = vec![(1, edge(2)), (1, edge(3)), (4, edge(2))];
    let new_edges = vec![(10, edge(2))];
    let previous_groups = vec![(10, 1), (2, 2)];
    let mut deleted_groups = HashMap::new();
    deleted_groups.insert(3, Some(10));
    let previous_edges = vec![((10, edge(2)), (1, edge(2)))];
    let out = find_deleted_edges(&old_edges, &new_edges, &previous_groups, &deleted_groups, &previous_edges);
    assert_eq!(out, vec![(10, edge(3), true), (4, edge(2), false)]);
}

#[test]
fn a_group_keeping_its_id_takes_over_the_reverse_mapping() {
    // Old group 1 is the origin of new groups 7 and 1; 1 keeps the id, so edges map back to 1.
    let old_edges = vec![(1, edge(5))];
    let out = find_deleted_edges(&old_edges, &vec![], &vec![(7, 1), (1, 1)], &HashMap::new(), &vec![]);
    assert_eq!(out, vec![(1, edge(5), false)]);
    let out = find_deleted_edges(&old_edges, &vec![], &vec![(7, 1), (8, 1)], &HashMap::new(), &vec![]);
    assert_eq!(out, vec![(7, edge(5), false)]);
}

#[test]
fn edges_of_unmapped_new_groups_do_not_keep_old_edges() {
    let old_edges = vec![(1, edge(2))];
    let new_edges = vec![(10, edge(2))];
    let previous_edges = vec![((10, edge(2)), (1, edge(2)))];
    let out = find_deleted_edges(&old_edges, &new_edges, &vec![], &HashMap::new(), &previous_edges);
    assert_eq!(out, vec![(1, edge(2), false)]);
}

#[test]
fn old_edges_renamed_to_the_same_edge_are_listed_once() {
    // Old groups 1 and 5 both have an edge to 2; new group 5 comes from old group 1.
    let old_edges = vec![(1, edge(2)), (5, edge(2))];
    let out = find_deleted_edges(&old_edges, &vec![], &vec![(5, 1)], &HashMap::new(), &vec![]);
    assert_eq!(out, vec![(5, edge(2), false)]);
}

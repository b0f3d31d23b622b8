use gsolve_order::constraint::{Constraint, Relation};
use gsolve_order::index::{PathCmd, PointIndex};
use gsolve_order::order::{bfs_order, compute_forest, compute_tree, linearize, root_pairs, ScheduleError};

fn index_with(names: &[&str]) -> PointIndex {
    let mut index = PointIndex::new();
    for n in names {
        index.get_or_insert(n);
    }
    index
}

fn triangle(index: &mut PointIndex, a: usize, b: usize, c: usize) {
    index.add_constraint(Constraint::pair(a, b, true));
    index.add_constraint(Constraint::pair(b, c, true));
    index.add_constraint(Constraint::pair(a, c, true));
}

#[test]
fn get_or_insert_is_idempotent_by_name() {
    let mut index = PointIndex::new();
    assert_eq!(index.get_or_insert("A"), 0);
    assert_eq!(index.get_or_insert("B"), 1);
    assert_eq!(index.get_or_insert("A"), 0);
    assert_eq!(index.point_count(), 2);
    assert_eq!(index.get_point(1), "B");
    assert_eq!(index.ids(), vec![0, 1]);
}

#[test]
fn add_constraint_fills_adjacency() {
    let mut index = index_with(&["A", "B", "C"]);
    index.add_constraint(Constraint::pair(0, 1, true));
    index.add_constraint(Constraint::triple(0, 1, 2, false));
    index.add_constraint(Constraint::pair(2, 2, true));
    assert_eq!(index.get_cids(0), &vec![0, 1]);
    assert_eq!(index.get_cids(1), &vec![0, 1]);
    assert_eq!(index.get_cids(2), &vec![1, 2]);
    assert_eq!(index.constraints().len(), 3);
    assert!(!index.get_constraint(1).is_discretizing());
    assert_eq!(index.get_constraint(1).points(), vec![0, 1, 2]);
}

#[test]
fn paths_are_kept_in_order() {
    let mut index = PointIndex::new();
    index.add_path(vec![PathCmd { text: "M A".to_string() }]);
    index.add_path(vec![]);
    assert_eq!(index.paths().len(), 2);
    assert_eq!(index.paths()[0][0].text, "M A");
}

#[test]
fn targets_need_all_other_points_known() {
    let pair = Constraint::pair(0, 1, true);
    assert_eq!(pair.targets(&vec![true, false]), vec![1]);
    assert_eq!(pair.targets(&vec![false, true]), vec![0]);
    assert_eq!(pair.targets(&vec![true, true]), Vec::<usize>::new());
    assert_eq!(pair.targets(&vec![false, false]), Vec::<usize>::new());
    let angle = Constraint::triple(0, 1, 2, true);
    assert_eq!(angle.targets(&vec![true, false, false]), Vec::<usize>::new());
    assert_eq!(angle.targets(&vec![true, false, true]), vec![1]);
    assert!(angle.is_within(3));
    assert!(!angle.is_within(2));
}

#[test]
fn map_ids_renumbers_everything() {
    let mut index = index_with(&["A", "B", "C"]);
    index.add_constraint(Constraint::pair(0, 2, true));
    index.map_ids(&vec![2, 0, 1]);
    assert_eq!(index.get_point(2), "A");
    assert_eq!(index.get_point(0), "B");
    assert_eq!(index.get_point(1), "C");
    assert!(matches!(index.get_constraint(0).relation, Relation::Pair(2, 1)));
    assert_eq!(index.get_cids(2), &vec![0]);
    assert_eq!(index.get_cids(1), &vec![0]);
    assert_eq!(index.get_cids(0), &Vec::<usize>::new());
    assert_eq!(index.get_or_insert("A"), 2);
}

#[test]
fn root_pairs_claim_each_symmetric_pair_once() {
    let mut index = index_with(&["A", "B", "C"]);
    triangle(&mut index, 0, 1, 2);
    let pairs = root_pairs(&index);
    assert_eq!(pairs, vec![(0, 1), (0, 2), (1, 2)]);
}

#[test]
fn root_pairs_need_a_constraint_from_one_point() {
    let mut index = index_with(&["A", "B", "C"]);
    index.add_constraint(Constraint::triple(0, 1, 2, true));
    assert!(root_pairs(&index).is_empty());
}

#[test]
fn triangle_tree_promotes_third_point_after_two_discretizing() {
    let mut index = index_with(&["A", "B", "C"]);
    triangle(&mut index, 0, 1, 2);
    let tree = compute_tree(0, 1, &index);
    let order: Vec<(usize, Vec<usize>)> = tree.order.clone();
    assert_eq!(order, vec![(0, vec![]), (1, vec![0]), (2, vec![2, 1])]);
    assert_eq!(tree.touched, vec![true, true, true]);
}

#[test]
fn single_discretizing_constraint_does_not_promote() {
    let mut index = index_with(&["A", "B", "C"]);
    index.add_constraint(Constraint::pair(0, 1, true));
    index.add_constraint(Constraint::pair(0, 2, true));
    index.add_constraint(Constraint::pair(1, 2, false));
    let tree = compute_tree(0, 1, &index);
    assert_eq!(tree.order.len(), 2);
    assert_eq!(tree.touched, vec![true, true, true]);
}

#[test]
fn rigid_triangle_gives_one_tree() {
    let mut index = index_with(&["A", "B", "C"]);
    triangle(&mut index, 0, 1, 2);
    let forest = compute_forest(&index);
    assert_eq!(forest.len(), 1);
    let pts: Vec<usize> = forest[0].order.iter().map(|e| e.0).collect();
    assert_eq!(pts, vec![0, 1, 2]);
    let order = bfs_order(&mut index).unwrap();
    assert_eq!(order, vec![vec![], vec![0], vec![2, 1]]);
    assert_eq!(index.get_point(2), "C");
}

#[test]
fn disconnected_triangles_give_two_trees() {
    let mut index = index_with(&["A", "B", "C", "D", "E", "F"]);
    triangle(&mut index, 0, 1, 2);
    triangle(&mut index, 3, 4, 5);
    assert_eq!(compute_forest(&index).len(), 2);
    let order = bfs_order(&mut index).unwrap();
    assert_eq!(order, vec![vec![], vec![0], vec![2, 1], vec![], vec![3], vec![5, 4]]);
    assert_eq!(index.get_point(3), "D");
    assert_eq!(index.get_point(5), "F");
}

#[test]
fn point_claimed_by_two_trees_is_a_conflict() {
    // A, B, X form a triangle; D, E determine X again through two angles.
    // Y hangs off A only, so neither tree's touched points cover the other's.
    let mut index = index_with(&["A", "B", "X", "Y", "D", "E"]);
    triangle(&mut index, 0, 1, 2);
    index.add_constraint(Constraint::pair(0, 3, true));
    index.add_constraint(Constraint::pair(4, 5, true));
    index.add_constraint(Constraint::triple(4, 5, 2, true));
    index.add_constraint(Constraint::triple(5, 4, 2, true));
    assert_eq!(compute_forest(&index).len(), 2);
    let r = bfs_order(&mut index);
    assert_eq!(r, Err(ScheduleError::Conflict { point: 2, first_tree: 0, second_tree: 1 }));
    assert_eq!(index.get_point(2), "X");
    assert_eq!(index.get_point(0), "A");
}

#[test]
fn discretizing_constraints_come_first() {
    let mut index = index_with(&["A", "B", "C"]);
    index.add_constraint(Constraint::pair(0, 1, true));
    index.add_constraint(Constraint::pair(0, 2, false));
    index.add_constraint(Constraint::pair(0, 2, true));
    index.add_constraint(Constraint::pair(1, 2, true));
    let order = bfs_order(&mut index).unwrap();
    assert_eq!(order, vec![vec![], vec![0], vec![2, 3, 1]]);
}

#[test]
fn points_outside_every_tree_follow_in_id_order() {
    let mut index = index_with(&["Z", "A", "B", "C"]);
    triangle(&mut index, 1, 2, 3);
    let order = bfs_order(&mut index).unwrap();
    assert_eq!(order.len(), 3);
    assert_eq!(index.get_point(0), "A");
    assert_eq!(index.get_point(3), "Z");
    assert!(matches!(index.get_constraint(0).relation, Relation::Pair(0, 1)));
}

#[test]
fn empty_index_schedules_nothing() {
    let mut index = PointIndex::new();
    assert_eq!(bfs_order(&mut index).unwrap(), Vec::<Vec<usize>>::new());
}

#[test]
fn linearize_reports_repeated_point_with_its_trees() {
    let mut index = index_with(&["A", "B"]);
    index.add_constraint(Constraint::pair(0, 1, true));
    let entries = vec![(0, vec![]), (1, vec![0]), (1, vec![])];
    let r = linearize(&mut index, entries, vec![0, 0, 4]);
    assert_eq!(r, Err(ScheduleError::Conflict { point: 1, first_tree: 0, second_tree: 4 }));
    assert_eq!(index.get_point(0), "A");
}

#[test]
fn linearize_numbers_entries_in_order() {
    let mut index = index_with(&["A", "B"]);
    index.add_constraint(Constraint::pair(0, 1, false));
    index.add_constraint(Constraint::pair(0, 1, true));
    let r = linearize(&mut index, vec![(1, vec![0, 1]), (0, vec![])], vec![0, 0]);
    assert_eq!(r, Ok(vec![vec![1, 0], vec![]]));
    assert_eq!(index.get_point(0), "B");
    assert_eq!(index.get_point(1), "A");
}

#[test]
fn seed_touched_by_an_earlier_tree_is_not_grown_again() {
    // (A, C) is a seed, but the tree grown from (A, B) already touches both
    // A and C, so E, which only that seed's expansion would reach, stays out.
    let mut index = index_with(&["A", "B", "C", "E"]);
    index.add_constraint(Constraint::pair(0, 1, true));
    index.add_constraint(Constraint::pair(0, 2, true));
    index.add_constraint(Constraint::triple(0, 2, 3, true));
    index.add_constraint(Constraint::triple(2, 0, 3, true));
    assert_eq!(root_pairs(&index), vec![(0, 1), (0, 2)]);
    let forest = compute_forest(&index);
    assert_eq!(forest.len(), 1);
    let pts: Vec<usize> = forest[0].order.iter().map(|e| e.0).collect();
    assert_eq!(pts, vec![0, 1]);
    assert_eq!(forest[0].touched, vec![true, true, true, false]);
    let grown = compute_tree(0, 2, &index);
    let reached: Vec<usize> = grown.order.iter().map(|e| e.0).collect();
    assert_eq!(reached, vec![0, 2, 3]);
}

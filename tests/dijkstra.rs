use comp_prog_lib::graph::dijkstra::Dijkstra;

#[test]
fn cost_of_start_point_is_zero() {
    let mut dijkstra = Dijkstra::new(2);
    dijkstra.add_edge(0, 1, 1);
    dijkstra.solve(0);
    assert_eq!(0, dijkstra.distance(0));
}

#[test]
fn shortest_path_by_dijkstra() {
    let mut dijkstra = Dijkstra::new(8);
    dijkstra.add_edge(0, 1, 1);
    dijkstra.add_edge(0, 3, 4);
    dijkstra.add_edge(0, 4, 5);
    dijkstra.add_edge(1, 2, 1);
    dijkstra.add_edge(2, 5, 4);
    dijkstra.add_edge(2, 7, 8);
    dijkstra.add_edge(3, 6, 4);
    dijkstra.add_edge(4, 5, 2);
    dijkstra.add_edge(4, 6, 2);
    dijkstra.add_edge(5, 7, 2);
    dijkstra.add_edge(6, 7, 5);
    dijkstra.solve(0);
    assert_eq!(8, dijkstra.distance(7));
}

#[test]
fn all_distances_and_unreachable_nodes() {
    let mut dijkstra = Dijkstra::new(6);
    dijkstra.add_edge(0, 1, 7);
    dijkstra.add_edge(0, 2, 9);
    dijkstra.add_edge(0, 5, 14);
    dijkstra.add_edge(1, 2, 10);
    dijkstra.add_edge(1, 3, 15);
    dijkstra.add_edge(2, 3, 11);
    dijkstra.add_edge(2, 5, 2);
    dijkstra.add_edge(3, 4, 6);
    dijkstra.add_edge(5, 4, 9);
    dijkstra.add_edge(4, 0, 0);
    dijkstra.solve(1);
    let expected = [21, 0, 10, 15, 21, 12];
    for (v, d) in expected.iter().enumerate() {
        assert_eq!(dijkstra.distance(v), *d);
    }
    let mut lonely = Dijkstra::new(3);
    lonely.add_edge(1, 2, 5);
    lonely.solve(0);
    assert_eq!(lonely.distance(0), 0);
    assert_eq!(lonely.distance(1), usize::MAX);
    assert_eq!(lonely.distance(2), usize::MAX);
}

#[test]
fn huge_costs_do_not_overflow() {
    let mut dijkstra = Dijkstra::new(3);
    dijkstra.add_edge(0, 1, usize::MAX - 1);
    dijkstra.add_edge(1, 2, 5);
    dijkstra.solve(0);
    assert_eq!(dijkstra.distance(1), usize::MAX - 1);
    assert_eq!(dijkstra.distance(2), usize::MAX);
}

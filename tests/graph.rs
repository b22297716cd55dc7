use comp_prog_lib::graph::adjacent4;

#[test]
fn test_adjacent4_corner() {
    let graph = vec![vec![0; 3]; 3];
    let expected = vec![(1, 0), (0, 1)];
    let actual = adjacent4(&graph, 0, 0);
    assert_eq!(expected, actual);
}

#[test]
fn test_adjacent4_side() {
    let graph = vec![vec![0; 3]; 3];
    let expected = vec![(1, 1), (0, 2), (0, 0)];
    let actual = adjacent4(&graph, 0, 1);
    assert_eq!(expected, actual);
}

#[test]
fn test_adjacent4_center() {
    let graph = vec![vec![0; 3]; 3];
    let expected = vec![(2, 1), (1, 2), (0, 1), (1, 0)];
    let actual = adjacent4(&graph, 1, 1);
    assert_eq!(expected, actual);
}

#[test]
fn adjacent4_far_corner_and_single_cell() {
    let graph = vec![vec!['.'; 4]; 2];
    assert_eq!(adjacent4(&graph, 1, 3), vec![(0, 3), (1, 2)]);
    let single = vec![vec![1u8]];
    assert_eq!(adjacent4(&single, 0, 0), Vec::<(usize, usize)>::new());
}

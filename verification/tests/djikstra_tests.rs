use djikstra::djikstra::{djikstra, djikstra_checked, OutOfBoundsError};
use djikstra::graph::Graph;

#[test]
fn correct_path() {
    let g1 = Graph::new(vec![
        vec![(1, 4), (2, 1)],
        vec![(0, 4), (2, 2), (3, 5)],
        vec![(0, 1), (1, 2), (3, 5)],
        vec![(1, 5), (2, 1)],
    ]);
    let (paths, _dists) = djikstra(&g1, 2);
    assert_eq!(
        paths,
        vec![
            Some(vec![2, 0]),
            Some(vec![2, 1]),
            Some(vec![2]),
            Some(vec![2, 3])
        ]
    )
}

#[test]
fn correct_path_lg() {
    let g1 = Graph::new(vec![
        vec![(1, 3), (6, 2)],
        vec![(0, 3), (2, 4), (3, 1), (6, 1), (4, 4), (7, 6)],
        vec![(6, 6), (1, 4), (3, 2), (4, 2)],
        vec![(1, 1), (2, 2), (4, 1), (7, 2)],
        vec![(2, 2), (3, 1), (1, 4), (7, 1), (5, 3)],
        vec![(4, 3), (7, 4)],
        vec![(0, 2), (1, 1), (2, 6), (4, 5)],
        vec![(4, 1), (5, 4), (3, 2), (1, 6)],
    ]);

    let (paths, _dists) = djikstra(&g1, 6);

    assert_eq!(
        paths,
        vec![
            Some(vec![6, 0]),
            Some(vec![6, 1]),
            Some(vec![6, 1, 3, 2]),
            Some(vec![6, 1, 3]),
            Some(vec![6, 1, 3, 4]),
            Some(vec![6, 1, 3, 4, 5]),
            Some(vec![6]),
            Some(vec![6, 1, 3, 7])
        ]
    );
}

#[test]
fn correct_distances() {
    let g1 = Graph::new(vec![
        vec![(1, 4), (2, 1)],
        vec![(0, 4), (2, 2), (3, 5)],
        vec![(0, 1), (1, 2), (3, 5)],
        vec![(1, 5), (2, 1)],
    ]);
    let (_paths, dists) = djikstra(&g1, 2);
    assert_eq!(dists, vec![1, 2, 0, 5]);
}

#[test]
fn correct_distances_lg() {
    let g1 = Graph::new(vec![
        vec![(1, 3), (6, 2)],
        vec![(0, 3), (2, 4), (3, 1), (6, 1), (4, 4), (7, 6)],
        vec![(6, 6), (1, 4), (3, 2), (4, 2)],
        vec![(1, 1), (2, 2), (4, 1), (7, 2)],
        vec![(2, 2), (3, 1), (1, 4), (7, 1), (5, 3)],
        vec![(4, 3), (7, 4)],
        vec![(0, 2), (1, 1), (2, 6), (4, 5)],
        vec![(4, 1), (5, 4), (3, 2), (1, 6)],
    ]);
    let (_paths, dists) = djikstra(&g1, 6);
    // distance to vertex 5 runs over the path [6, 1, 3, 4, 5]
    assert_eq!(dists[5], 1 + 1 + 1 + 3);
    assert_eq!(dists, vec![2, 1, 4, 2, 3, 6, 0, 4]);
}

#[test]
fn source_path_is_itself() {
    let g = Graph::new(vec![vec![(1, 2)], vec![(0, 2)]]);
    let (paths, dists) = djikstra(&g, 0);
    assert_eq!(paths[0], Some(vec![0]));
    assert_eq!(dists[0], 0);
}

#[test]
fn unreached_vertices_marked() {
    // vertex 2 has no incoming edge from the component of 0
    let g = Graph::new(vec![vec![(1, 7)], vec![], vec![(0, 1)]]);
    let (paths, dists) = djikstra(&g, 0);
    assert_eq!(paths, vec![Some(vec![0]), Some(vec![0, 1]), None]);
    assert_eq!(dists, vec![0, 7, usize::MAX]);
}

#[test]
fn path_weights_sum_to_distance() {
    let g = Graph::new(vec![
        vec![(1, 1), (2, 5)],
        vec![(2, 1), (3, 7)],
        vec![(3, 2)],
        vec![],
    ]);
    let (paths, dists) = djikstra(&g, 0);
    assert_eq!(paths[3], Some(vec![0, 1, 2, 3]));
    assert_eq!(dists, vec![0, 1, 2, 4]);
}

#[test]
fn saturates_instead_of_wrapping() {
    let g = Graph::new(vec![
        vec![(1, usize::MAX - 1)],
        vec![(2, usize::MAX - 1)],
        vec![],
    ]);
    let (paths, dists) = djikstra(&g, 0);
    assert_eq!(dists, vec![0, usize::MAX - 1, usize::MAX]);
    assert_eq!(paths[2], None);
}

#[test]
fn checked_rejects_bad_source() {
    let g = Graph::new(vec![vec![(1, 1)], vec![]]);
    assert_eq!(djikstra_checked(&g, 2), Err(OutOfBoundsError));
    assert!(djikstra_checked(&g, 1).is_ok());
}

#[test]
fn checked_rejects_bad_neighbor_id() {
    let g = Graph::new(vec![vec![(5, 1)], vec![]]);
    assert_eq!(djikstra_checked(&g, 0), Err(OutOfBoundsError));
}

#[test]
fn checked_agrees_with_unchecked() {
    let g = Graph::new(vec![
        vec![(1, 4), (2, 1)],
        vec![(0, 4), (2, 2), (3, 5)],
        vec![(0, 1), (1, 2), (3, 5)],
        vec![(1, 5), (2, 1)],
    ]);
    let (paths, dists) = djikstra_checked(&g, 2).unwrap();
    assert_eq!(djikstra(&g, 2), (paths, dists));
}

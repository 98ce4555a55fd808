use wordsearch::Graph;

fn graph_of(listing: Vec<(usize, Vec<usize>)>) -> Graph {
    let mut graph = Graph::new();
    for (x, neighbors) in listing {
        for y in neighbors {
            graph.add_edge(x, y);
        }
    }
    graph
}

fn neighbors(graph: &Graph, x: usize) -> Vec<usize> {
    match graph.neighbors(x) {
        Some(set) => set.iter().cloned().collect(),
        None => vec![],
    }
}

#[test]
fn grid_3x3() {
    let graph = Graph::grid(3, 3);

    let expected = graph_of(vec![
        (0, vec![1, 3, 4]),
        (1, vec![0, 2, 3, 4, 5]),
        (2, vec![1, 4, 5]),
        (3, vec![0, 1, 4, 6, 7]),
        (4, vec![0, 1, 2, 3, 5, 6, 7, 8]),
        (5, vec![1, 2, 4, 7, 8]),
        (6, vec![3, 4, 7]),
        (7, vec![3, 4, 5, 6, 8]),
        (8, vec![4, 5, 7]),
    ]);

    assert_eq!(graph, expected);
}

#[test]
fn grid_3x3_neighbor_lists() {
    let graph = Graph::grid(3, 3);
    let listing = vec![
        (0, vec![1, 3, 4]),
        (1, vec![0, 2, 3, 4, 5]),
        (2, vec![1, 4, 5]),
        (3, vec![0, 1, 4, 6, 7]),
        (4, vec![0, 1, 2, 3, 5, 6, 7, 8]),
        (5, vec![1, 2, 4, 7, 8]),
        (6, vec![3, 4, 7]),
        (7, vec![3, 4, 5, 6, 8]),
        (8, vec![4, 5, 7]),
    ];
    for (x, expected) in listing {
        assert_eq!(neighbors(&graph, x), expected);
    }
    assert!(graph.neighbors(9).is_none());
    let mut ids = graph.node_ids();
    ids.sort();
    assert_eq!(ids, vec![0, 1, 2, 3, 4, 5, 6, 7, 8]);
}

#[test]
fn grid_4x3_has_the_king_moves() {
    let graph = Graph::grid(4, 3);
    assert_eq!(neighbors(&graph, 5), vec![0, 1, 2, 4, 6, 8, 9, 10]);
    assert_eq!(neighbors(&graph, 3), vec![2, 6, 7]);
    assert_eq!(neighbors(&graph, 4), vec![0, 1, 5, 8, 9]);
    assert_eq!(neighbors(&graph, 11), vec![6, 7, 10]);
    assert_eq!(graph.node_ids().len(), 12);
}

#[test]
fn grid_is_symmetric() {
    for (width, height) in [(1, 1), (1, 4), (4, 1), (2, 2), (3, 3), (5, 4), (2, 7)] {
        let graph = Graph::grid(width, height);
        for x in 0..width * height {
            for y in 0..width * height {
                let forth = neighbors(&graph, x).contains(&y);
                let back = neighbors(&graph, y).contains(&x);
                assert_eq!(forth, back);
                let near = x != y
                    && (x % width).abs_diff(y % width) <= 1
                    && (x / width).abs_diff(y / width) <= 1;
                assert_eq!(forth, near);
            }
        }
    }
}

#[test]
fn grid_neighbor_counts() {
    for (width, height) in [(3, 3), (5, 4), (3, 6)] {
        let graph = Graph::grid(width, height);
        for x in 0..width * height {
            let col = x % width;
            let row = x / width;
            let on_col_border = col == 0 || col == width - 1;
            let on_row_border = row == 0 || row == height - 1;
            let expected = match (on_col_border, on_row_border) {
                (false, false) => 8,
                (true, true) => 3,
                _ => 5,
            };
            assert_eq!(graph.neighbors(x).unwrap().len(), expected);
        }
    }
}

#[test]
fn grid_without_two_cells_is_empty() {
    assert_eq!(Graph::grid(0, 0), Graph::new());
    assert_eq!(Graph::grid(0, 3), Graph::new());
    assert_eq!(Graph::grid(3, 0), Graph::new());
    assert_eq!(Graph::grid(1, 1), Graph::new());
    assert!(Graph::new().node_ids().is_empty());
}

#[test]
fn grid_of_one_row_or_one_column_is_a_line() {
    assert_eq!(
        Graph::grid(1, 3),
        graph_of(vec![(0, vec![1]), (1, vec![0, 2]), (2, vec![1])])
    );
    assert_eq!(
        Graph::grid(3, 1),
        graph_of(vec![(0, vec![1]), (1, vec![0, 2]), (2, vec![1])])
    );
    assert_eq!(Graph::grid(2, 1), graph_of(vec![(0, vec![1])]));
}

#[test]
fn add_edge_connects_both_ways() {
    let mut graph = Graph::new();
    graph.add_edge(7, 2);
    assert_eq!(neighbors(&graph, 7), vec![2]);
    assert_eq!(neighbors(&graph, 2), vec![7]);
    graph.add_edge(2, 7);
    graph.add_edge(7, 9);
    assert_eq!(neighbors(&graph, 7), vec![2, 9]);
    assert_eq!(neighbors(&graph, 9), vec![7]);
    let mut ids = graph.node_ids();
    ids.sort();
    assert_eq!(ids, vec![2, 7, 9]);
    graph.add_edge(4, 4);
    assert_eq!(neighbors(&graph, 4), vec![4]);
}

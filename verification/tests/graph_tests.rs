use djikstra::graph::Graph;

#[test]
fn correctly_equal() {
    let g1 = Graph::new(vec![
        vec![(1, 3), (2, 3)],
        vec![(2, 2), (0, 3)],
        vec![(1, 2), (0, 3)],
    ]);
    let g2 = Graph::new(vec![
        vec![(1, 3), (2, 3)],
        vec![(0, 3), (2, 2)],
        vec![(0, 3), (1, 2)],
    ]);
    assert_eq!(g1, g2);
}

#[test]
fn correctly_unequal() {
    let g1 = Graph::new(vec![
        vec![(1, 3), (2, 3)],
        vec![(2, 2), (0, 3)],
        vec![(1, 2), (0, 3)],
    ]);
    let g2 = Graph::new(vec![
        vec![(1, 3), (2, 3)],
        vec![(0, 3), (2, 2)],
        vec![(0, 3)],
    ]);
    assert_ne!(g1, g2);
}

#[test]
fn correctly_unequal2() {
    let g1 = Graph::new(vec![
        vec![(1, 3), (2, 3)],
        vec![(2, 2), (0, 3)],
        vec![(1, 2), (0, 2)],
    ]);
    let g2 = Graph::new(vec![
        vec![(1, 3), (2, 3)],
        vec![(0, 3), (2, 2)],
        vec![(0, 3), (1, 2)],
    ]);
    assert_ne!(g1, g2);
}

#[test]
fn parses_correctly() {
    let graph_str = r#"3
1,3 2,3
2,2 0,3
1,2 0,3"#;
    let should_be = Graph::new(vec![
        vec![(1, 3), (2, 3)],
        vec![(2, 2), (0, 3)],
        vec![(1, 2), (0, 3)],
    ]);
    let parsed = Graph::from_str(graph_str);
    assert!(parsed.is_ok());

    assert_eq!(parsed.unwrap(), should_be);
}

#[test]
fn parses_correctly_one_empty() {
    let graph_str = r#"3
1,3

0,3"#;
    let should_be = Graph::new(vec![vec![(1, 3)], vec![], vec![(0, 3)]]);
    let parsed = Graph::from_str(graph_str);
    assert!(parsed.is_ok());

    assert_eq!(parsed.unwrap(), should_be);
}

#[test]
fn parses_graph_last_empty() {
    let graph_str = r#"5
3,3
2,1
1,1
0,3"#;
    let should_be = Graph::new(vec![
        vec![(3, 3)],
        vec![(2, 1)],
        vec![(1, 1)],
        vec![(0, 3)],
        vec![],
    ]);
    let parsed = Graph::from_str(graph_str);
    assert!(parsed.is_ok());
    assert_eq!(parsed.unwrap(), should_be);
}

#[test]
fn fails_when_no_n_vertices() {
    let graph_str = r#"1,3 2,3
2,2 0,3
1,2 0,3"#;
    let parsed = Graph::from_str(graph_str);
    assert!(parsed.is_err());
}

#[test]
fn n_edges_is_correct() {
    let g1 = Graph::new(vec![
        vec![(1, 3), (3, 4)],
        vec![(3, 4), (5, 2)],
        vec![(4, 2), (3, 2)],
        vec![(2, 2)],
        vec![(4, 2), (3, 2), (1, 4)],
    ]);
    assert_eq!(g1.n_edges(), 10);
}

#[test]
fn parses_empty_graph() {
    let graph_str = r#"3


"#;
    let parsed = Graph::from_str(graph_str);

    let should_be = Graph::new(vec![vec![]; 3]);

    assert!(parsed.is_ok());
    assert_eq!(parsed.unwrap(), should_be);
}

#[test]
fn parses_graph_with_one_elist() {
    let graph_str = r#"4


3,3
2,3"#;
    let parsed = Graph::from_str(graph_str);

    let should_be = Graph::new(vec![vec![], vec![], vec![(3, 3)], vec![(2, 3)]]);

    assert!(parsed.is_ok());
    assert_eq!(parsed.unwrap(), should_be);
}

#[test]
fn fails_when_header_not_integer() {
    let parsed = Graph::from_str("abc\n1,2");
    assert!(parsed.is_err());
    assert_eq!(parsed.unwrap_err().message(), "cannot parse n_vertices");
}

#[test]
fn fails_when_token_has_no_comma() {
    let parsed = Graph::from_str("3\n1 2,3");
    assert!(parsed.is_err());
    assert_eq!(
        parsed.unwrap_err().message(),
        "vertex doesnt have weight with it"
    );
}

#[test]
fn fails_when_vertex_not_integer() {
    let parsed = Graph::from_str("3\nx,3");
    assert!(parsed.is_err());
    assert_eq!(parsed.unwrap_err().message(), "cannot parse vertex");
}

#[test]
fn fails_when_weight_not_integer() {
    let parsed = Graph::from_str("3\n1,y");
    assert!(parsed.is_err());
    assert_eq!(parsed.unwrap_err().message(), "cannot parse weight");
}

#[test]
fn fails_when_missing_header_message() {
    let parsed = Graph::from_str("3");
    assert!(parsed.is_err());
    assert_eq!(parsed.unwrap_err().message(), "cannot split on newline");
}

#[test]
fn ignores_lines_beyond_vertex_count() {
    let parsed = Graph::from_str("2\n1,1\n0,1\n0,9 1,9");
    let should_be = Graph::new(vec![vec![(1, 1)], vec![(0, 1)]]);
    assert_eq!(parsed.unwrap(), should_be);
}

#[test]
fn accepts_plus_and_crlf() {
    let parsed = Graph::from_str("+2\r\n1,+3\r\n0,4\r\n");
    // the header line keeps its carriage return and fails to parse
    assert!(parsed.is_err());
    let parsed2 = Graph::from_str("+2\n1,+3\r\n0,4\r\n");
    let should_be = Graph::new(vec![vec![(1, 3)], vec![(0, 4)]]);
    assert_eq!(parsed2.unwrap(), should_be);
}

#[test]
fn equality_counts_duplicates() {
    let g1 = Graph::new(vec![vec![(1, 1), (1, 1), (0, 2)], vec![]]);
    let g2 = Graph::new(vec![vec![(1, 1), (0, 2), (0, 2)], vec![]]);
    assert_ne!(g1, g2);
    let g3 = Graph::new(vec![vec![(0, 2), (1, 1), (1, 1)], vec![]]);
    assert_eq!(g1, g3);
}

#[test]
fn parses_run_input() {
    let input = "2\n3\n1,3 2,3\n2,2 0,3\n1,2 0,3";
    let (src, graph) = djikstra::graph::parse_input(input).unwrap();
    assert_eq!(src, 2);
    let should_be = Graph::new(vec![
        vec![(1, 3), (2, 3)],
        vec![(2, 2), (0, 3)],
        vec![(1, 2), (0, 3)],
    ]);
    assert_eq!(graph, should_be);
}

#[test]
fn run_input_fails_without_source_line() {
    let err = djikstra::graph::parse_input("5").unwrap_err();
    assert_eq!(err.message(), "cannot split on newline");
    let err2 = djikstra::graph::parse_input("x\n3\n1,2").unwrap_err();
    assert_eq!(err2.message(), "cannot parse start vertex");
    let err3 = djikstra::graph::parse_input("1\nbad").unwrap_err();
    assert_eq!(err3.message(), "cannot parse graph");
}

#[test]
fn vertex_count_from_text() {
    let g = Graph::from_str("4\n1,2").unwrap();
    assert_eq!(g.n_vertices(), 4);
    assert_eq!(g.n_edges(), 1);
}

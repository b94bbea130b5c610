use restaurant_graphs::{
    bad_make_graph, calculate_user_similarity, cosine_similarity, create_adjacency_matrix,
    good_make_graph, make_graph, precompute_norms, restaurant_recommender, top_indices,
    top_nodes, top_restaurants, top_reviewers, AdjacencyMatrix, Graph, RecommendError, SCALE,
};

fn s(x: &str) -> String {
    x.to_string()
}

fn count_of(table: &[(String, usize)], key: &str) -> usize {
    table.iter().find(|e| e.0 == key).map(|e| e.1).unwrap()
}

fn edge_count(g: &Graph) -> usize {
    g.edges.iter().map(|e| e.1.len()).sum()
}

#[test]
fn test_good_make_graph() {
    let reviews = vec![
        (s("user1"), s("business1"), 4000),
        (s("user2"), s("business2"), 3000),
        (s("user1"), s("business3"), 5000),
    ];
    let graph = good_make_graph(reviews);

    assert_eq!(graph.users.len(), 1);
    assert!(graph.users.contains(&s("user1")));
    assert_eq!(graph.businesses.len(), 2);
    assert!(graph.businesses.contains(&s("business1")));
}

#[test]
fn test_bad_make_graph() {
    let reviews = vec![
        (s("user1"), s("business1"), 2500),
        (s("user2"), s("business2"), 3000),
        (s("user3"), s("business3"), 4000),
    ];
    let graph = bad_make_graph(reviews);

    assert_eq!(graph.users.len(), 2);
    assert!(graph.users.contains(&s("user1")));
    assert_eq!(graph.businesses.len(), 2);
    assert!(graph.businesses.contains(&s("business2")));
}

#[test]
fn test_top_reviewers() {
    let edges = vec![
        (s("user1"), vec![s("business1"), s("business2")]),
        (s("user2"), vec![s("business3")]),
    ];

    let reviewers = top_reviewers(&edges);
    assert_eq!(count_of(&reviewers, "user1"), 2);
    assert_eq!(count_of(&reviewers, "user2"), 1);
}

#[test]
fn test_top_restaurants() {
    let graph = Graph {
        users: Vec::new(),
        businesses: Vec::new(),
        edges: vec![
            (s("user1"), vec![s("business1"), s("business2")]),
            (s("user2"), vec![s("business1")]),
        ],
    };

    let restaurants = top_restaurants(&graph);
    assert_eq!(count_of(&restaurants, "business1"), 2);
    assert_eq!(count_of(&restaurants, "business2"), 1);
}

#[test]
fn test_create_adjacency_matrix() {
    let graph = vec![
        (s("user1"), vec![s("business1"), s("business2")]),
        (s("user2"), vec![s("business2")]),
    ];

    let matrix = create_adjacency_matrix(&graph);
    assert!(matrix.row(&s("user1")).is_some());
    assert_eq!(matrix.row(&s("user1")).unwrap(), &vec![1, 1]);
}

#[test]
fn test_restaurant_recommender() {
    let adjacency_matrix = AdjacencyMatrix {
        businesses: vec![s("business1"), s("business2"), s("business3")],
        rows: vec![
            (s("user1"), vec![1, 0, 1]),
            (s("user2"), vec![0, 1, 0]),
            (s("user3"), vec![1, 1, 0]),
        ],
    };
    let similarity_scores = vec![(s("user1"), s("user3"), 900_000)];

    let recommendations =
        restaurant_recommender(&s("user1"), &similarity_scores, &adjacency_matrix);
    assert_eq!(recommendations, Ok(vec![s("business2")]));
}

#[test]
fn threshold_splits_every_review_once() {
    let reviews = vec![
        (s("a"), s("x"), 3500),
        (s("a"), s("y"), 3499),
        (s("b"), s("x"), 1000),
        (s("b"), s("x"), 5000),
        (s("c"), s("z"), 3500),
    ];
    let good = good_make_graph(reviews.clone());
    let bad = bad_make_graph(reviews.clone());
    assert_eq!(edge_count(&good) + edge_count(&bad), reviews.len());
    assert_eq!(edge_count(&good), 3);
    assert_eq!(edge_count(&bad), 2);
    assert!(good.users.contains(&s("c")));
    assert!(!bad.users.contains(&s("c")));
}

#[test]
fn repeated_reviews_stay_repeated() {
    let reviews = vec![
        (s("a"), s("x"), 4000),
        (s("a"), s("x"), 4500),
        (s("b"), s("y"), 4000),
    ];
    let g = make_graph(&reviews, true);
    assert_eq!(g.users, vec![s("a"), s("b")]);
    assert_eq!(g.businesses, vec![s("x"), s("y")]);
    assert_eq!(g.edges[0], (s("a"), vec![s("x"), s("x")]));
    assert_eq!(top_reviewers(&g.edges), vec![(s("a"), 2), (s("b"), 1)]);
}

#[test]
fn empty_reviews_give_empty_graph() {
    let g = good_make_graph(Vec::new());
    assert!(g.users.is_empty());
    assert!(g.businesses.is_empty());
    assert!(g.edges.is_empty());
}

#[test]
fn business_counts_sum_to_edge_count() {
    let graph = Graph {
        users: Vec::new(),
        businesses: Vec::new(),
        edges: vec![
            (s("u1"), vec![s("b1"), s("b2"), s("b1")]),
            (s("u2"), vec![s("b3"), s("b1")]),
        ],
    };
    let counts = top_restaurants(&graph);
    let total: usize = counts.iter().map(|e| e.1).sum();
    assert_eq!(total, edge_count(&graph));
    assert_eq!(counts, vec![(s("b1"), 3), (s("b2"), 1), (s("b3"), 1)]);
}

#[test]
fn matrix_rows_collapse_repeats() {
    let graph = vec![
        (s("u1"), vec![s("b1"), s("b1"), s("b2")]),
        (s("u2"), vec![s("b3")]),
    ];
    let m = create_adjacency_matrix(&graph);
    assert_eq!(m.businesses, vec![s("b1"), s("b2"), s("b3")]);
    assert_eq!(m.rows[0], (s("u1"), vec![1, 1, 0]));
    assert_eq!(m.rows[1], (s("u2"), vec![0, 0, 1]));
    for row in &m.rows {
        assert!(row.1.iter().all(|&x| x == 0 || x == 1));
    }
    let row_sum: usize = m.rows[0].1.iter().sum();
    assert_eq!(row_sum, 2);
    assert!(m.row(&s("u3")).is_none());
}

#[test]
fn similarity_is_symmetric_and_bounded() {
    let graph = vec![
        (s("u1"), vec![s("b1"), s("b2"), s("b3")]),
        (s("u2"), vec![s("b2"), s("b3")]),
        (s("u3"), vec![s("b4")]),
    ];
    let m = create_adjacency_matrix(&graph);
    let norms = precompute_norms(&m);
    assert_eq!(norms, vec![(s("u1"), 3), (s("u2"), 2), (s("u3"), 1)]);
    let ab = cosine_similarity(&s("u1"), &s("u2"), &m, &norms);
    let ba = cosine_similarity(&s("u2"), &s("u1"), &m, &norms);
    assert_eq!(ab, ba);
    // 2 / sqrt(6) = 0.816496...
    assert_eq!(ab, 816_496);
    assert!(ab <= SCALE);
    assert_eq!(cosine_similarity(&s("u1"), &s("u3"), &m, &norms), 0);
    assert_eq!(cosine_similarity(&s("u1"), &s("u1"), &m, &norms), SCALE);
}

#[test]
fn two_user_scenario() {
    let graph = vec![(s("u1"), vec![s("b1"), s("b2")]), (s("u2"), vec![s("b1")])];
    let m = create_adjacency_matrix(&graph);
    assert_eq!(m.row(&s("u2")).unwrap(), &vec![1, 0]);
    let norms = precompute_norms(&m);
    assert_eq!(norms, vec![(s("u1"), 2), (s("u2"), 1)]);
    let sims = calculate_user_similarity(&m, &norms);
    // 1 / sqrt(2) = 0.7071067...
    assert_eq!(sims, vec![(s("u1"), s("u2"), 707_106)]);
    let rec = restaurant_recommender(&s("u2"), &sims, &m);
    assert_eq!(rec, Ok(vec![s("b2")]));
}

#[test]
fn similarity_table_skips_disjoint_pairs() {
    let graph = vec![
        (s("u1"), vec![s("b1")]),
        (s("u2"), vec![s("b2")]),
        (s("u3"), vec![s("b1"), s("b2")]),
    ];
    let m = create_adjacency_matrix(&graph);
    let norms = precompute_norms(&m);
    let sims = calculate_user_similarity(&m, &norms);
    assert_eq!(
        sims,
        vec![(s("u1"), s("u3"), 707_106), (s("u2"), s("u3"), 707_106)]
    );
}

#[test]
fn recommendations_exclude_reviewed_businesses() {
    let m = AdjacencyMatrix {
        businesses: vec![s("b1"), s("b2"), s("b3"), s("b4")],
        rows: vec![
            (s("t"), vec![1, 0, 0, 0]),
            (s("n1"), vec![1, 1, 1, 0]),
            (s("n2"), vec![1, 0, 1, 1]),
        ],
    };
    let sims = vec![(s("t"), s("n1"), 300_000), (s("n2"), s("t"), 500_000)];
    let rec = restaurant_recommender(&s("t"), &sims, &m).unwrap();
    // b3: 0.3 + 0.5, b4: 0.5, b2: 0.3
    assert_eq!(rec, vec![s("b3"), s("b4"), s("b2")]);
    assert!(!rec.contains(&s("b1")));
}

#[test]
fn recommendations_break_ties_by_business_id() {
    let m = AdjacencyMatrix {
        businesses: vec![s("b2"), s("b1"), s("b3")],
        rows: vec![(s("t"), vec![0, 0, 0]), (s("n"), vec![1, 1, 1])],
    };
    let sims = vec![(s("t"), s("n"), 400_000)];
    let rec = restaurant_recommender(&s("t"), &sims, &m).unwrap();
    assert_eq!(rec, vec![s("b1"), s("b2"), s("b3")]);
}

#[test]
fn recommendations_stop_at_ten() {
    let width = 12;
    let businesses: Vec<String> = (0..width).rev().map(|i| format!("b{:02}", i)).collect();
    let m = AdjacencyMatrix {
        businesses: businesses.clone(),
        rows: vec![(s("t"), vec![0; width]), (s("n"), vec![1; width])],
    };
    let sims = vec![(s("n"), s("t"), 1)];
    let rec = restaurant_recommender(&s("t"), &sims, &m).unwrap();
    let expected: Vec<String> = (0..10).map(|i| format!("b{:02}", i)).collect();
    assert_eq!(rec, expected);
}

#[test]
fn isolated_user_gets_nothing() {
    let m = AdjacencyMatrix {
        businesses: vec![s("b1"), s("b2")],
        rows: vec![
            (s("a"), vec![1, 0]),
            (s("b"), vec![0, 1]),
            (s("c"), vec![1, 1]),
        ],
    };
    let sims = vec![(s("b"), s("c"), 700_000)];
    assert_eq!(restaurant_recommender(&s("a"), &sims, &m), Ok(Vec::new()));
}

#[test]
fn unknown_user_is_an_error() {
    let m = AdjacencyMatrix {
        businesses: vec![s("b1")],
        rows: vec![(s("a"), vec![1])],
    };
    assert_eq!(
        restaurant_recommender(&s("zz"), &Vec::new(), &m),
        Err(RecommendError::UnknownUser)
    );
}

#[test]
fn top_nodes_breaks_ties_by_id() {
    let counts = vec![(s("a"), 5), (s("b"), 3), (s("c"), 3)];
    assert_eq!(top_nodes(&counts, 2), vec![(s("a"), 5), (s("b"), 3)]);
    let reordered = vec![(s("c"), 3), (s("b"), 3), (s("a"), 5)];
    assert_eq!(top_nodes(&reordered, 2), vec![(s("a"), 5), (s("b"), 3)]);
    let tied = vec![(s("b"), 3), (s("a"), 3)];
    assert_eq!(top_nodes(&tied, 1), vec![(s("a"), 3)]);
    assert_eq!(top_nodes(&tied, 2), vec![(s("a"), 3), (s("b"), 3)]);
}

#[test]
fn top_nodes_with_large_n_sorts_everything() {
    let counts = vec![(s("a"), 1), (s("b"), 7), (s("c"), 4)];
    assert_eq!(
        top_nodes(&counts, 20),
        vec![(s("b"), 7), (s("c"), 4), (s("a"), 1)]
    );
    assert!(top_nodes(&counts, 0).is_empty());
    assert!(top_nodes(&Vec::new(), 3).is_empty());
}

#[test]
fn top_indices_orders_by_score_then_name() {
    let names = vec![s("e"), s("d"), s("c"), s("b"), s("a")];
    assert_eq!(top_indices(&vec![2, 9, 2, 9, 5], &names, 4), vec![3, 1, 4, 2]);
    assert_eq!(top_indices(&vec![u128::MAX, 0], &vec![s("x"), s("y")], 5), vec![0, 1]);
    let same = vec![s("k"), s("k"), s("ka")];
    assert_eq!(top_indices(&vec![1, 1, 1], &same, 3), vec![0, 1, 2]);
}

#[test]
fn matrix_columns_are_sorted() {
    let graph = vec![
        (s("u1"), vec![s("zeta"), s("alpha"), s("mid")]),
        (s("u2"), vec![s("zeta"), s("al")]),
    ];
    let m = create_adjacency_matrix(&graph);
    assert_eq!(m.businesses, vec![s("al"), s("alpha"), s("mid"), s("zeta")]);
    assert_eq!(m.rows[0].1, vec![0, 1, 1, 1]);
    assert_eq!(m.rows[1].1, vec![1, 0, 0, 1]);
}

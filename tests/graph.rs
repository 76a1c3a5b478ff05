use lyric_graph::graph::{LGraph, LVert};

fn word(s: &str) -> LVert {
    LVert::new(s.to_string())
}

fn words(ws: &[&str]) -> Vec<LVert> {
    ws.iter().map(|s| word(s)).collect()
}

fn position(g: &LGraph, s: &str) -> usize {
    g.find_vertex(&word(s)).expect("registered")
}

fn edge(g: &LGraph, a: &str, b: &str) -> bool {
    g.has_edge(position(g, a), position(g, b))
}

fn snapshot(g: &LGraph) -> Vec<Vec<bool>> {
    let n = g.size();
    (0..n).map(|i| (0..n).map(|j| g.has_edge(i, j)).collect()).collect()
}

#[test]
fn vert_keeps_its_value() {
    assert_eq!(word("echo").value, "echo");
}

#[test]
fn new_graph_is_blank() {
    let g = LGraph::new(4);
    assert_eq!(g.count(), 0);
    assert_eq!(g.size(), 4);
    assert!(snapshot(&g).iter().all(|row| row.iter().all(|b| !b)));
}

#[test]
fn repeated_registration_keeps_one_vertex() {
    let mut g = LGraph::new(5);
    let v = word("love");
    assert!(g.add_vertex(&v));
    for _ in 0..4 {
        assert!(!g.add_vertex(&v));
    }
    assert_eq!(g.count(), 1);
    assert_eq!(g.value_at(0), "love");
}

#[test]
fn find_vertex_reports_position_or_absence() {
    let g = LGraph::from_words(&words(&["the", "cat", "meows"]));
    assert_eq!(g.find_vertex(&word("the")), Some(0));
    assert_eq!(g.find_vertex(&word("meows")), Some(2));
    assert_eq!(g.find_vertex(&word("dog")), None);
    assert_eq!(g.find_vertex(&word("Cat")), None);
}

#[test]
fn add_vertices_merges_repeats_in_order() {
    let ws = words(&["b", "a", "b", "c", "a"]);
    let mut g = LGraph::new(2);
    g.add_vertices(ws.iter().collect());
    assert_eq!(g.count(), 3);
    assert_eq!(g.value_at(0), "b");
    assert_eq!(g.value_at(1), "a");
    assert_eq!(g.value_at(2), "c");
    assert!(snapshot(&g).iter().all(|row| row.iter().all(|b| !b)));
}

#[test]
fn matrix_grows_past_its_initial_size() {
    let mut g = LGraph::new(1);
    for s in ["a", "b", "c"] {
        g.add_vertex(&word(s));
    }
    assert_eq!(g.count(), 3);
    assert!(g.size() >= 3);
    assert!(g.create_edge(&word("c"), &word("a")));
    assert!(edge(&g, "c", "a"));
    assert!(!edge(&g, "a", "c"));
}

#[test]
fn creating_an_edge_twice_matches_once() {
    let mut once = LGraph::new(3);
    let mut twice = LGraph::new(3);
    for g in [&mut once, &mut twice] {
        g.add_vertex(&word("a"));
        g.add_vertex(&word("b"));
    }
    assert!(once.create_edge(&word("a"), &word("b")));
    assert!(twice.create_edge(&word("a"), &word("b")));
    assert!(twice.create_edge(&word("a"), &word("b")));
    assert_eq!(snapshot(&once), snapshot(&twice));
    assert!(edge(&twice, "a", "b"));
    assert!(!edge(&twice, "b", "a"));
}

#[test]
fn edge_with_unknown_endpoints_changes_nothing() {
    let mut g = LGraph::new(3);
    g.add_vertex(&word("a"));
    let before = snapshot(&g);
    assert!(!g.create_edge(&word("x"), &word("y")));
    assert!(!g.create_edge(&word("a"), &word("y")));
    assert!(!g.create_edge(&word("x"), &word("a")));
    assert_eq!(snapshot(&g), before);
    assert_eq!(g.count(), 1);
}

#[test]
fn self_loop_is_allowed() {
    let g = LGraph::from_words(&words(&["la", "la"]));
    assert_eq!(g.count(), 1);
    assert!(edge(&g, "la", "la"));
}

#[test]
fn construction_round_trip() {
    let g = LGraph::from_words(&words(&["a", "b", "a", "c"]));
    assert_eq!(g.count(), 3);
    assert_eq!(g.value_at(0), "a");
    assert_eq!(g.value_at(1), "b");
    assert_eq!(g.value_at(2), "c");
    assert!(edge(&g, "a", "b"));
    assert!(edge(&g, "b", "a"));
    assert!(edge(&g, "a", "c"));
    for (x, y) in [("b", "c"), ("c", "a"), ("c", "b"), ("a", "a"), ("b", "b"), ("c", "c")] {
        assert!(!edge(&g, x, y), "{} -> {}", x, y);
    }
}

#[test]
fn the_cat_meows_cat() {
    let g = LGraph::from_words(&words(&["the", "cat", "meows", "cat"]));
    let expected = vec![
        vec![false, true, false],
        vec![false, false, true],
        vec![false, true, false],
    ];
    for i in 0..3 {
        for j in 0..3 {
            assert_eq!(g.has_edge(i, j), expected[i][j]);
        }
    }
}

#[test]
fn candidates_in_column_order() {
    let g = LGraph::from_words(&words(&["a", "d", "x", "a", "b", "y", "a", "c"]));
    let a = position(&g, "a");
    let got: Vec<&str> = g.candidates(a).iter().map(|&j| g.value_at(j).as_str()).collect();
    assert_eq!(got, vec!["d", "b", "c"]);
    assert!(g.candidates(position(&g, "c")).is_empty());
}

#[test]
fn dead_end_stops_the_walk() {
    let g = LGraph::from_words(&words(&["x", "y"]));
    assert_eq!(g.traverse_sentence(&word("y"), 5), vec!["y".to_string()]);
    assert_eq!(g.traverse_sentence(&word("x"), 5), vec!["x".to_string(), "y".to_string()]);
}

#[test]
fn unregistered_start_gives_nothing() {
    let g = LGraph::from_words(&words(&["x", "y"]));
    assert!(g.traverse_sentence(&word("z"), 3).is_empty());
}

#[test]
fn length_one_is_the_start_alone() {
    let g = LGraph::from_words(&words(&["a", "b", "a"]));
    assert_eq!(g.traverse_sentence(&word("a"), 1), vec!["a".to_string()]);
}

#[test]
fn cycle_reaches_the_full_length() {
    let g = LGraph::from_words(&words(&["a", "b", "a"]));
    let s = g.traverse_sentence(&word("a"), 6);
    assert_eq!(s, vec!["a", "b", "a", "b", "a", "b"]);
}

#[test]
fn walks_follow_edges() {
    let text = "i walk the line and the line walks me and i sing";
    let ws = words(&text.split_whitespace().collect::<Vec<_>>());
    let g = LGraph::from_words(&ws);
    for _ in 0..200 {
        let s = g.traverse_sentence(&word("the"), 8);
        assert_eq!(s[0], "the");
        assert!(!s.is_empty() && s.len() <= 8);
        for pair in s.windows(2) {
            assert!(edge(&g, &pair[0], &pair[1]));
        }
        if s.len() < 8 {
            assert!(g.candidates(position(&g, s.last().unwrap())).is_empty());
        }
    }
}

#[test]
fn choices_are_uniform_over_successors() {
    let g = LGraph::from_words(&words(&["a", "b", "a", "c", "a", "d"]));
    let trials = 30000;
    let mut seen = [0usize; 3];
    for _ in 0..trials {
        let s = g.traverse_sentence(&word("a"), 2);
        assert_eq!(s.len(), 2);
        match s[1].as_str() {
            "b" => seen[0] += 1,
            "c" => seen[1] += 1,
            "d" => seen[2] += 1,
            other => panic!("not a successor: {}", other),
        }
    }
    for n in seen {
        let f = n as f64 / trials as f64;
        assert!((f - 1.0 / 3.0).abs() < 0.03, "frequency {}", f);
    }
}

#[test]
fn out_degree_counts_distinct_successors() {
    let g = LGraph::from_words(&words(&["a", "b", "a", "c", "a", "b"]));
    assert_eq!(g.out_degree(position(&g, "a")), 2);
    assert_eq!(g.out_degree(position(&g, "b")), 1);
    assert_eq!(g.out_degree(position(&g, "c")), 1);
}

#[test]
fn successor_picks_in_column_order() {
    let g = LGraph::from_words(&words(&["a", "d", "x", "a", "b", "y", "a", "c"]));
    let a = position(&g, "a");
    assert_eq!(g.successor(a, 0), Some(position(&g, "d")));
    assert_eq!(g.successor(a, 1), Some(position(&g, "b")));
    assert_eq!(g.successor(a, 2), Some(position(&g, "c")));
    assert_eq!(g.successor(a, 3), None);
    assert_eq!(g.successor(position(&g, "c"), 0), None);
}

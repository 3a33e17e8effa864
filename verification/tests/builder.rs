use chess_driller::builder::bytes_eq;
use chess_driller::builder::PgnVisitor;
use chess_driller::graph::OpeningGraph;
use chess_driller::lines::VariationAnchor;

fn s(text: &str) -> String {
    text.to_string()
}

/// Reads games into one graph; "(" and ")" open and close a variation.
fn load(graph: OpeningGraph, games: &[&[&str]]) -> OpeningGraph {
    let mut visitor = PgnVisitor::new_with_graph(graph);
    for game in games {
        for token in *game {
            match *token {
                "(" => {
                    visitor.begin_variation();
                }
                ")" => visitor.end_variation(),
                san => {
                    assert!(visitor.has_room());
                    visitor.san(s(san));
                }
            }
        }
        visitor.end_game();
    }
    visitor.into_graph()
}

fn notations(graph: &OpeningGraph, nodes: &[usize]) -> Vec<String> {
    let mut found: Vec<String> = nodes.iter().map(|n| graph.node_notation(*n).clone()).collect();
    found.sort();
    found
}

fn child(graph: &OpeningGraph, at: usize, san: &str) -> usize {
    graph.find_first(&graph.children(at), &s(san)).unwrap()
}

fn root(graph: &OpeningGraph, san: &str) -> usize {
    graph.find_first(&graph.roots(), &s(san)).unwrap()
}

#[test]
fn variation_at_first_move_makes_second_root() {
    let mut visitor = PgnVisitor::new_with_graph(OpeningGraph::new());
    let d4 = visitor.san(s("d4"));
    assert_eq!(visitor.begin_variation(), VariationAnchor::AtStart);
    let c4 = visitor.san(s("c4"));
    visitor.end_variation();
    let d5 = visitor.san(s("d5"));
    visitor.end_game();
    let graph = visitor.into_graph();
    assert_eq!(graph.node_count(), 3);
    assert_eq!(graph.roots(), vec![d4, c4]);
    assert_eq!(graph.node_notation(d4), "d4");
    assert_eq!(graph.node_notation(c4), "c4");
    assert_eq!(graph.children(d4), vec![d5]);
    assert_eq!(graph.node_notation(d5), "d5");
    assert!(graph.children(c4).is_empty());
}

#[test]
fn one_line_is_a_chain() {
    let graph = load(OpeningGraph::new(), &[&["e4", "e5", "Nf3"]]);
    assert_eq!(graph.node_count(), 3);
    assert_eq!(graph.roots(), vec![0]);
    assert_eq!(graph.children(0), vec![1]);
    assert_eq!(graph.children(1), vec![2]);
    assert!(graph.children(2).is_empty());
    assert_eq!(graph.parents(2), vec![1]);
    assert!(graph.parents(0).is_empty());
    assert!(graph.is_root(0));
    assert!(!graph.is_root(1));
    assert!(!graph.is_root(3));
    assert_eq!(notations(&graph, &[0, 1, 2]), vec![s("Nf3"), s("e4"), s("e5")]);
}

#[test]
fn same_game_twice_adds_nothing() {
    let game: &[&str] = &["e4", "e5", "(", "c5", "Nf3", "(", "Nc3", ")", ")", "Nf3", "Nc6"];
    let once = load(OpeningGraph::new(), &[game]);
    let twice = load(once.clone(), &[game]);
    assert_eq!(once.node_count(), 7);
    assert_eq!(twice.node_count(), once.node_count());
    for n in 0..once.node_count() {
        assert_eq!(twice.node_notation(n), once.node_notation(n));
        assert_eq!(twice.children(n), once.children(n));
    }
}

#[test]
fn variation_at_first_move_is_added_again_by_a_second_reading() {
    let game: &[&str] = &["d4", "(", "c4", ")", "d5"];
    let once = load(OpeningGraph::new(), &[game]);
    let twice = load(once.clone(), &[game]);
    assert_eq!(once.node_count(), 3);
    assert_eq!(twice.node_count(), 4);
    assert_eq!(notations(&twice, &twice.roots()), vec![s("c4"), s("c4"), s("d4")]);
}

#[test]
fn shared_prefix_is_stored_once() {
    let graph = load(
        OpeningGraph::new(),
        &[&["e4", "e5", "Nf3", "Nc6", "Bc4"], &["e4", "e5", "Nf3", "Nc6", "Bb5"], &["e4", "c5"]],
    );
    assert_eq!(graph.node_count(), 7);
    let e4 = root(&graph, "e4");
    assert_eq!(notations(&graph, &graph.children(e4)), vec![s("c5"), s("e5")]);
    let nc6 = child(&graph, child(&graph, child(&graph, e4, "e5"), "Nf3"), "Nc6");
    assert_eq!(notations(&graph, &graph.children(nc6)), vec![s("Bb5"), s("Bc4")]);
    // The reply added last comes first.
    assert_eq!(graph.node_notation(graph.children(nc6)[0]), "Bb5");
}

#[test]
fn root_notations_do_not_depend_on_the_order_of_the_games() {
    let a: &[&str] = &["e4", "e5", "Nf3"];
    let b: &[&str] = &["d4", "(", "c4", ")", "d5"];
    let c: &[&str] = &["e4", "c5", ")", "Nf3"];
    let orders: [[&[&str]; 3]; 6] =
        [[a, b, c], [a, c, b], [b, a, c], [b, c, a], [c, a, b], [c, b, a]];
    let mut seen: Vec<Vec<String>> = Vec::new();
    for order in orders {
        let graph = load(OpeningGraph::new(), &order);
        let mut roots = notations(&graph, &graph.roots());
        roots.dedup();
        seen.push(roots);
    }
    for roots in &seen {
        assert_eq!(roots, &vec![s("Nf3"), s("c4"), s("d4"), s("e4")]);
    }
}

#[test]
fn variation_stands_beside_the_move_it_replaces() {
    let graph = load(OpeningGraph::new(), &[&["e4", "e5", "(", "c5", "Nf3", ")", "Nc3"]]);
    let e4 = root(&graph, "e4");
    let e5 = child(&graph, e4, "e5");
    let c5 = child(&graph, e4, "c5");
    assert_eq!(notations(&graph, &graph.children(c5)), vec![s("Nf3")]);
    // After the variation the main line goes on below the move before it.
    assert_eq!(notations(&graph, &graph.children(e5)), vec![s("Nc3")]);
    assert_eq!(graph.node_count(), 5);
}

#[test]
fn variations_nest() {
    let graph = load(
        OpeningGraph::new(),
        &[&["e4", "e5", "Nf3", "(", "Nc3", "Nf6", "(", "Nc6", "g3", ")", "f4", ")", "Nc6"]],
    );
    let e5 = child(&graph, root(&graph, "e4"), "e5");
    let nf3 = child(&graph, e5, "Nf3");
    let nc3 = child(&graph, e5, "Nc3");
    let nf6 = child(&graph, nc3, "Nf6");
    let nc6 = child(&graph, nc3, "Nc6");
    assert_eq!(notations(&graph, &graph.children(nc6)), vec![s("g3")]);
    assert_eq!(notations(&graph, &graph.children(nf6)), vec![s("f4")]);
    assert_eq!(notations(&graph, &graph.children(nf3)), vec![s("Nc6")]);
    assert_eq!(graph.node_count(), 9);
}

#[test]
fn begin_variation_reports_what_it_met() {
    let mut visitor = PgnVisitor::new_with_graph(OpeningGraph::new());
    assert_eq!(visitor.begin_variation(), VariationAnchor::NoMove);
    visitor.san(s("e4"));
    assert_eq!(visitor.begin_variation(), VariationAnchor::AtStart);
    // A variation of a line that has no move yet starts before any move too.
    assert_eq!(visitor.begin_variation(), VariationAnchor::AtStart);
    visitor.end_variation();
    visitor.end_variation();
    visitor.san(s("e5"));
    assert_eq!(visitor.begin_variation(), VariationAnchor::Sibling);
}

#[test]
fn move_after_an_unopened_variation_is_closed_becomes_a_root() {
    let graph = load(OpeningGraph::new(), &[&["e4", ")", "e5", "e4"]]);
    assert_eq!(graph.node_count(), 3);
    assert_eq!(notations(&graph, &graph.roots()), vec![s("e4"), s("e5")]);
    let e5 = root(&graph, "e5");
    assert_eq!(notations(&graph, &graph.children(e5)), vec![s("e4")]);
}

#[test]
fn first_move_goes_to_the_last_root_that_holds_it() {
    // Two roots "e5": the one added last takes the next game.
    let graph = load(OpeningGraph::new(), &[&["e5", ")", "e5"], &["e5", "Nf3"]]);
    assert_eq!(graph.roots(), vec![0, 1]);
    assert!(graph.children(0).is_empty());
    assert_eq!(notations(&graph, &graph.children(1)), vec![s("Nf3")]);
}

#[test]
fn end_game_starts_the_next_game_at_the_roots() {
    let graph = load(OpeningGraph::new(), &[&["e4", "e5"], &["e5", "e4"]]);
    assert_eq!(graph.node_count(), 4);
    assert_eq!(notations(&graph, &graph.roots()), vec![s("e4"), s("e5")]);
}

#[test]
fn games_go_to_the_side_that_the_player_had() {
    let mut visitor =
        PgnVisitor::new_game_recorder(OpeningGraph::new(), OpeningGraph::new(), s("xd009642"));
    visitor.header(b"Event", b"Live Chess");
    visitor.header(b"White", b"xd009642");
    visitor.header(b"Black", b"somebody");
    visitor.san(s("d4"));
    visitor.san(s("d5"));
    visitor.end_game();
    visitor.header(b"White", b"somebody");
    visitor.header(b"Black", b"xd009642");
    visitor.san(s("e4"));
    visitor.san(s("c6"));
    visitor.end_game();
    // A game without the player goes to White's graph.
    visitor.header(b"White", b"somebody");
    visitor.header(b"Black", b"somebody else");
    visitor.san(s("c4"));
    visitor.end_game();
    let (white, black) = visitor.into_graphs();
    assert_eq!(notations(&white, &white.roots()), vec![s("c4"), s("d4")]);
    assert_eq!(notations(&black, &black.roots()), vec![s("e4")]);
    assert_eq!(white.node_count(), 3);
    assert_eq!(black.node_count(), 2);
}

#[test]
fn header_after_the_first_move_is_passed_over() {
    let mut visitor =
        PgnVisitor::new_game_recorder(OpeningGraph::new(), OpeningGraph::new(), s("me"));
    visitor.san(s("e4"));
    visitor.header(b"Black", b"me");
    visitor.san(s("e5"));
    visitor.end_game();
    visitor.san(s("d4"));
    visitor.end_game();
    let (white, black) = visitor.into_graphs();
    assert_eq!(white.node_count(), 3);
    assert_eq!(black.node_count(), 0);
}

#[test]
fn last_header_that_names_the_player_counts() {
    let mut visitor =
        PgnVisitor::new_game_recorder(OpeningGraph::new(), OpeningGraph::new(), s("me"));
    visitor.header(b"White", b"me");
    visitor.header(b"Black", b"me");
    visitor.san(s("e4"));
    visitor.end_game();
    visitor.header(b"Black", b"me");
    visitor.header(b"White", b"me");
    visitor.san(s("d4"));
    visitor.end_game();
    let (white, black) = visitor.into_graphs();
    assert_eq!(notations(&white, &white.roots()), vec![s("d4")]);
    assert_eq!(notations(&black, &black.roots()), vec![s("e4")]);
}

#[test]
fn headers_do_nothing_without_a_player() {
    let mut visitor = PgnVisitor::new_with_graph(OpeningGraph::new());
    visitor.header(b"Black", b"");
    visitor.header(b"Black", b"me");
    visitor.san(s("e4"));
    visitor.end_game();
    let (white, black) = visitor.into_graphs();
    assert_eq!(white.node_count(), 1);
    assert_eq!(black.node_count(), 0);
}

#[test]
fn header_keys_and_names_are_matched_exactly() {
    let mut visitor =
        PgnVisitor::new_game_recorder(OpeningGraph::new(), OpeningGraph::new(), s("me"));
    visitor.header(b"black", b"me");
    visitor.header(b"Black", b"Me");
    visitor.header(b"Black", b"me ");
    visitor.header(b"BlackElo", b"me");
    visitor.san(s("e4"));
    visitor.end_game();
    visitor.header(b"Black", b"me");
    visitor.header(b"White", b"me");
    visitor.san(s("d4"));
    visitor.end_game();
    let (white, black) = visitor.into_graphs();
    assert_eq!(white.node_count(), 2);
    assert_eq!(black.node_count(), 0);
}

#[test]
fn bytes_are_equal_when_all_are() {
    assert!(bytes_eq(b"", b""));
    assert!(bytes_eq(b"White", b"White"));
    assert!(!bytes_eq(b"White", b"Whit"));
    assert!(!bytes_eq(b"White", b"Whitf"));
}

#[test]
fn graph_answers_for_handles_that_are_no_nodes() {
    let graph = load(OpeningGraph::new(), &[&["e4", "e5"]]);
    assert!(graph.children(7).is_empty());
    assert!(graph.parents(usize::MAX).is_empty());
    assert!(!graph.is_root(2));
    assert!(graph.has_room());
    assert_eq!(graph.find_last(&graph.roots(), &s("e4")), Some(0));
    assert_eq!(graph.find_last(&graph.roots(), &s("e5")), None);
    assert_eq!(graph.candidates(None), vec![0]);
    assert_eq!(graph.candidates(Some(0)), vec![1]);
}

#[test]
fn copy_of_a_graph_is_its_own() {
    let graph = load(OpeningGraph::new(), &[&["e4", "e5"]]);
    let copy = load(graph.clone(), &[&["e4", "c5"]]);
    assert_eq!(graph.node_count(), 2);
    assert_eq!(copy.node_count(), 3);
    assert_eq!(OpeningGraph::default().node_count(), 0);
}

use chess_driller::builder::PgnVisitor;
use chess_driller::graph::OpeningGraph;
use chess_driller::merge::fold_into;
use chess_driller::merge::merge;

fn s(text: &str) -> String {
    text.to_string()
}

fn graph_of(games: &[&[&str]]) -> OpeningGraph {
    let mut visitor = PgnVisitor::new_with_graph(OpeningGraph::new());
    for game in games {
        for token in *game {
            match *token {
                "(" => {
                    visitor.begin_variation();
                }
                ")" => visitor.end_variation(),
                san => {
                    visitor.san(s(san));
                }
            }
        }
        visitor.end_game();
    }
    visitor.into_graph()
}

/// The lines of a graph: for each node the notations from its root down.
fn lines(graph: &OpeningGraph) -> Vec<Vec<String>> {
    let mut all = Vec::new();
    for n in 0..graph.node_count() {
        let mut line = vec![graph.node_notation(n).clone()];
        let mut at = n;
        while let Some(parent) = graph.parents(at).first() {
            line.push(graph.node_notation(*parent).clone());
            at = *parent;
        }
        line.reverse();
        all.push(line);
    }
    all.sort();
    all
}

fn line(moves: &[&str]) -> Vec<String> {
    moves.iter().map(|m| m.to_string()).collect()
}

#[test]
fn merge_of_nothing_is_empty() {
    let merged = merge(&vec![]).unwrap();
    assert_eq!(merged.node_count(), 0);
}

#[test]
fn merge_of_one_source_is_its_copy() {
    let source = graph_of(&[&["e4", "e5"], &["d4"]]);
    let merged = merge(&vec![(s("a.pgn"), source.clone())]).unwrap();
    assert_eq!(lines(&merged), lines(&source));
    assert_eq!(merged.node_count(), 3);
}

#[test]
fn shared_prefix_is_merged() {
    let first = graph_of(&[&["e4", "e5", "Nf3", "Nc6", "Bc4"]]);
    let second = graph_of(&[&["e4", "e5", "Nf3", "Nc6", "Bb5"], &["e4", "c5"]]);
    let merged = merge(&vec![(s("italian"), first), (s("spanish"), second)]).unwrap();
    assert_eq!(merged.node_count(), 7);
    assert_eq!(
        lines(&merged),
        vec![
            line(&["e4"]),
            line(&["e4", "c5"]),
            line(&["e4", "e5"]),
            line(&["e4", "e5", "Nf3"]),
            line(&["e4", "e5", "Nf3", "Nc6"]),
            line(&["e4", "e5", "Nf3", "Nc6", "Bb5"]),
            line(&["e4", "e5", "Nf3", "Nc6", "Bc4"]),
        ]
    );
}

#[test]
fn unknown_root_is_copied_with_all_below_it() {
    let first = graph_of(&[&["e4", "e5"]]);
    let second = graph_of(&[&["d4", "d5", "(", "Nf6", "c4", ")", "c4", "e6"]]);
    let merged = merge(&vec![(s("a"), first), (s("b"), second.clone())]).unwrap();
    assert_eq!(merged.node_count(), 2 + second.node_count());
    assert_eq!(merged.roots().len(), 2);
    let mut expected = lines(&second);
    expected.push(line(&["e4"]));
    expected.push(line(&["e4", "e5"]));
    expected.sort();
    assert_eq!(lines(&merged), expected);
    // The copy keeps the order of the replies.
    let d4 = merged.find_first(&merged.roots(), &s("d4")).unwrap();
    let replies: Vec<String> =
        merged.children(d4).iter().map(|n| merged.node_notation(*n).clone()).collect();
    let d4_source = second.find_first(&second.roots(), &s("d4")).unwrap();
    let replies_source: Vec<String> =
        second.children(d4_source).iter().map(|n| second.node_notation(*n).clone()).collect();
    assert_eq!(replies, replies_source);
}

#[test]
fn merging_a_graph_into_itself_adds_nothing() {
    let source = graph_of(&[&["e4", "e5", "(", "c5", ")", "Nf3"], &["d4", "d5"]]);
    let merged = merge(&vec![(s("a"), source.clone()), (s("b"), source.clone())]).unwrap();
    assert_eq!(merged.node_count(), source.node_count());
    assert_eq!(lines(&merged), lines(&source));
}

#[test]
fn three_sources_give_the_lines_of_all() {
    let a = graph_of(&[&["e4", "e5"]]);
    let b = graph_of(&[&["e4", "c5"], &["c4"]]);
    let c = graph_of(&[&["e4", "e5", "Nf3"], &["c4", "e5"]]);
    let merged = merge(&vec![(s("a"), a), (s("b"), b), (s("c"), c)]).unwrap();
    assert_eq!(
        lines(&merged),
        vec![
            line(&["c4"]),
            line(&["c4", "e5"]),
            line(&["e4"]),
            line(&["e4", "c5"]),
            line(&["e4", "e5"]),
            line(&["e4", "e5", "Nf3"]),
        ]
    );
}

#[test]
fn fold_keeps_the_handles_of_the_seed() {
    let mut seed = graph_of(&[&["e4", "e5"], &["d4"]]);
    let before: Vec<String> = (0..seed.node_count()).map(|n| seed.node_notation(n).clone()).collect();
    let source = graph_of(&[&["d4", "d5"], &["e4", "e5", "Nf3"], &["c4"]]);
    fold_into(&mut seed, &source);
    assert_eq!(seed.node_count(), 6);
    for (n, san) in before.iter().enumerate() {
        assert_eq!(seed.node_notation(n), san);
    }
    assert_eq!(seed.children(0), vec![1]);
    assert_eq!(seed.roots().len(), 3);
}

#[test]
fn no_line_stands_twice_after_a_merge() {
    let a = graph_of(&[&["e4", "e5", "Nf3"], &["d4", "d5"]]);
    let b = graph_of(&[&["e4", "e5", "Nf3", "Nc6"], &["d4", "Nf6"], &["e4", "e5", "Nc3"]]);
    let merged = merge(&vec![(s("a"), a), (s("b"), b)]).unwrap();
    let mut all = lines(&merged);
    let count = all.len();
    all.dedup();
    assert_eq!(all.len(), count);
    assert_eq!(count, 8);
}

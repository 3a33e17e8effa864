use chess_driller::builder::PgnVisitor;
use chess_driller::db::Color;
use chess_driller::db::MoveAssessment;
use chess_driller::db::OpeningDatabase;
use chess_driller::graph::OpeningGraph;

fn s(text: &str) -> String {
    text.to_string()
}

fn history(moves: &[&str]) -> Vec<String> {
    moves.iter().map(|m| m.to_string()).collect()
}

fn graph_of(games: &[&[&str]]) -> OpeningGraph {
    let mut visitor = PgnVisitor::new_with_graph(OpeningGraph::new());
    for game in games {
        for m in *game {
            visitor.san(s(m));
        }
        visitor.end_game();
    }
    visitor.into_graph()
}

fn italian_and_sicilian() -> OpeningDatabase {
    let white = graph_of(&[
        &["e4", "e5", "Nf3", "Nc6", "Bc4"],
        &["e4", "c5", "Nf3"],
        &["d4", "d5", "c4", "e6"],
    ]);
    let black = graph_of(&[&["e4", "c6", "d4", "d5"]]);
    OpeningDatabase::new(white, black)
}

#[test]
fn single_line_drill_for_white() {
    let db = OpeningDatabase::new(graph_of(&[&["e4", "e5", "Nf3"]]), OpeningGraph::new());
    let mut drill = db.start_drill(Color::White, &vec![]).unwrap();
    assert_eq!(drill.apply_move(&s("e4")), MoveAssessment::InPrep);
    assert_eq!(drill.apply_move(&s("e5")), MoveAssessment::InPrep);
    // The last move of the line is still a move of the preparation; that the
    // line has ended shows in the position, and in any move after it.
    assert_eq!(drill.apply_move(&s("Nf3")), MoveAssessment::InPrep);
    assert_eq!(drill.check_move(), MoveAssessment::PrepEnded);
    assert!(drill.still_running());
    assert_eq!(drill.apply_move(&s("Nc6")), MoveAssessment::PrepEnded);
    assert!(!drill.still_running());

    let mut fresh = db.start_drill(Color::White, &vec![]).unwrap();
    assert_eq!(fresh.apply_move(&s("d4")), MoveAssessment::OutOfPrep);
    assert!(!fresh.still_running());
    assert_eq!(fresh.current_move(), None);
}

#[test]
fn check_move_tells_the_three_states() {
    let db = OpeningDatabase::new(graph_of(&[&["e4", "e5"]]), OpeningGraph::new());
    let mut drill = db.start_drill(Color::White, &vec![]).unwrap();
    assert_eq!(drill.check_move(), MoveAssessment::OutOfPrep);
    drill.apply_move(&s("e4"));
    assert_eq!(drill.check_move(), MoveAssessment::InPrep);
    drill.apply_move(&s("e5"));
    assert_eq!(drill.check_move(), MoveAssessment::PrepEnded);
}

#[test]
fn drill_starts_from_a_line_of_the_repertoire() {
    let db = italian_and_sicilian();
    let line = history(&["e4", "e5", "Nf3"]);
    let drill = db.start_drill(Color::White, &line).unwrap();
    let graph = db.graph(Color::White);
    let at = drill.current_move().unwrap();
    assert_eq!(graph.node_notation(at), "Nf3");
    // The position is the one that walking the graph from its roots gives.
    let e4 = graph.find_first(&graph.roots(), &s("e4")).unwrap();
    let e5 = graph.find_first(&graph.children(e4), &s("e5")).unwrap();
    let nf3 = graph.find_first(&graph.children(e5), &s("Nf3")).unwrap();
    assert_eq!(at, nf3);
    assert!(drill.still_running());
    // White began, three moves were made: it is Black's turn.
    assert!(!drill.is_player_turn());

    let mut replay = db.start_drill(Color::White, &vec![]).unwrap();
    for m in &line {
        assert_eq!(replay.apply_move(m), MoveAssessment::InPrep);
    }
    assert_eq!(replay.current_move(), Some(at));
}

#[test]
fn drill_does_not_start_from_a_line_outside_the_repertoire() {
    let db = italian_and_sicilian();
    assert!(db.start_drill(Color::White, &history(&["e4", "e6"])).is_none());
    assert!(db.start_drill(Color::White, &history(&["e4", "e5", "Nf3", "Nc6", "Bc4", "Bc5"])).is_none());
    assert!(db.start_drill(Color::Black, &history(&["d4"])).is_none());
    assert!(db.start_drill(Color::Black, &history(&["e4", "c6"])).is_some());
    assert!(db.start_drill(Color::White, &history(&["d4", "d5", "c4", "e6"])).is_some());
}

#[test]
fn each_side_has_its_own_repertoire() {
    let db = italian_and_sicilian();
    let white = db.start_drill(Color::White, &vec![]).unwrap();
    let black = db.start_drill(Color::Black, &vec![]).unwrap();
    assert!(white.is_player_turn());
    assert!(!black.is_player_turn());
    let mut white_moves = white.accepted_moves();
    white_moves.sort();
    assert_eq!(white_moves, history(&["d4", "e4"]));
    assert_eq!(black.accepted_moves(), history(&["e4"]));
}

#[test]
fn turn_passes_with_every_move_made() {
    let db = italian_and_sicilian();
    let mut drill = db.start_drill(Color::Black, &vec![]).unwrap();
    assert!(!drill.is_player_turn());
    assert_eq!(drill.make_move(), Some(s("e4")));
    assert!(drill.is_player_turn());
    assert_eq!(drill.apply_move(&s("c6")), MoveAssessment::InPrep);
    assert!(!drill.is_player_turn());
    assert_eq!(drill.make_move(), Some(s("d4")));
    assert!(drill.is_player_turn());
    // A move out of the preparation does not pass the turn.
    assert_eq!(drill.apply_move(&s("e5")), MoveAssessment::OutOfPrep);
    assert!(drill.is_player_turn());
}

#[test]
fn out_of_prep_names_what_was_accepted() {
    let db = italian_and_sicilian();
    let mut drill = db.start_drill(Color::White, &history(&["e4"])).unwrap();
    let mut accepted = drill.accepted_moves();
    accepted.sort();
    assert_eq!(accepted, history(&["c5", "e5"]));
    assert_eq!(drill.apply_move(&s("d5")), MoveAssessment::OutOfPrep);
    // The position is where it was, so the list still holds.
    let mut after = drill.accepted_moves();
    after.sort();
    assert_eq!(after, accepted);
}

#[test]
fn end_of_line_accepts_nothing_and_plays_nothing() {
    let db = italian_and_sicilian();
    let mut drill = db.start_drill(Color::White, &history(&["e4", "c5", "Nf3"])).unwrap();
    assert!(drill.accepted_moves().is_empty());
    assert_eq!(drill.make_move(), None);
    assert!(drill.still_running());
    assert_eq!(drill.apply_move(&s("d6")), MoveAssessment::PrepEnded);
    assert_eq!(drill.apply_move(&s("Nf3")), MoveAssessment::PrepEnded);
    assert!(!drill.still_running());
}

#[test]
fn empty_repertoire_ends_at_once() {
    let db = OpeningDatabase::default();
    let mut drill = db.start_drill(Color::White, &vec![]).unwrap();
    assert_eq!(drill.make_move(), None);
    assert_eq!(drill.apply_move(&s("e4")), MoveAssessment::PrepEnded);
    assert!(db.start_drill(Color::Black, &history(&["e4"])).is_none());
}

#[test]
fn make_move_plays_a_candidate() {
    let db = italian_and_sicilian();
    for seed in 0..50u64 {
        let mut drill = db
            .start_drill_with(Color::White, &history(&["e4"]), fastrand::Rng::with_seed(seed))
            .unwrap();
        let accepted = drill.accepted_moves();
        let played = drill.make_move().unwrap();
        assert!(accepted.contains(&played));
        let at = drill.current_move().unwrap();
        assert_eq!(db.graph(Color::White).node_notation(at), &played);
    }
}

#[test]
fn make_move_is_the_same_for_the_same_seed() {
    let db = italian_and_sicilian();
    let mut first = db.start_drill_with(Color::White, &vec![], fastrand::Rng::with_seed(42)).unwrap();
    let mut second = db.start_drill_with(Color::White, &vec![], fastrand::Rng::with_seed(42)).unwrap();
    for _ in 0..3 {
        assert_eq!(first.make_move(), second.make_move());
    }
}

#[test]
fn make_move_picks_each_candidate_equally_often() {
    let white = graph_of(&[&["e4"], &["d4"], &["c4"], &["Nf3"]]);
    let db = OpeningDatabase::new(white, OpeningGraph::new());
    let mut counts = std::collections::HashMap::new();
    let trials = 10_000;
    for seed in 0..trials {
        let mut drill = db
            .start_drill_with(Color::White, &vec![], fastrand::Rng::with_seed(seed))
            .unwrap();
        *counts.entry(drill.make_move().unwrap()).or_insert(0u64) += 1;
    }
    assert_eq!(counts.len(), 4);
    for (_, count) in counts {
        let share = count as f64 / trials as f64;
        assert!((share - 0.25).abs() < 0.03);
    }
}

#[test]
fn play_moves_to_the_candidate() {
    let db = italian_and_sicilian();
    let graph = db.graph(Color::White);
    let mut drill = db.start_drill(Color::White, &history(&["e4"])).unwrap();
    let e4 = drill.current_move().unwrap();
    let c5 = graph.find_first(&graph.children(e4), &s("c5")).unwrap();
    assert_eq!(drill.play(c5), "c5");
    assert_eq!(drill.current_move(), Some(c5));
    assert!(drill.is_player_turn());
}

#[test]
fn reply_follows_a_move_of_the_preparation() {
    let db = italian_and_sicilian();
    let mut drill = db.start_drill(Color::White, &vec![]).unwrap();
    let (prep, reply) = drill.reply_to(&s("d4"));
    assert_eq!(prep, MoveAssessment::InPrep);
    assert_eq!(reply, Some(s("d5")));
    assert!(drill.is_player_turn());
    let (prep, reply) = drill.reply_to(&s("c4"));
    assert_eq!((prep, reply), (MoveAssessment::InPrep, Some(s("e6"))));
    // The line has ended with the reply.
    let (prep, reply) = drill.reply_to(&s("Nc3"));
    assert_eq!((prep, reply), (MoveAssessment::PrepEnded, None));
    assert!(!drill.still_running());
}

#[test]
fn no_reply_to_the_last_move_of_a_line_or_to_a_move_out_of_prep() {
    let db = italian_and_sicilian();
    let mut drill = db.start_drill(Color::White, &history(&["e4", "c5"])).unwrap();
    let (prep, reply) = drill.reply_to(&s("Nf3"));
    assert_eq!((prep, reply), (MoveAssessment::InPrep, None));
    assert!(drill.still_running());
    assert!(!drill.is_player_turn());

    let mut drill = db.start_drill(Color::White, &history(&["e4"])).unwrap();
    let (prep, reply) = drill.reply_to(&s("Nf6"));
    assert_eq!((prep, reply), (MoveAssessment::OutOfPrep, None));
}

#[test]
fn drill_opens_with_a_move_when_the_player_has_black() {
    let db = italian_and_sicilian();
    let mut white = db.start_drill(Color::White, &vec![]).unwrap();
    assert_eq!(white.open(), None);
    assert_eq!(white.current_move(), None);
    let mut black = db.start_drill(Color::Black, &vec![]).unwrap();
    assert_eq!(black.open(), Some(s("e4")));
    assert!(black.is_player_turn());
    assert_eq!(black.open(), None);
}

#[test]
fn recorded_games_reach_the_database_when_adopted() {
    let mut db = italian_and_sicilian();
    let mut recorder = db.recorder(s("me"));
    recorder.header(b"Black", b"me");
    recorder.san(s("d4"));
    recorder.san(s("Nf6"));
    recorder.end_game();
    assert!(db.start_drill(Color::Black, &history(&["d4"])).is_none());
    db.adopt(recorder);
    assert!(db.start_drill(Color::Black, &history(&["d4", "Nf6"])).is_some());
    assert!(db.start_drill(Color::Black, &history(&["e4", "c6"])).is_some());
    assert!(db.start_drill(Color::White, &history(&["d4", "Nf6"])).is_none());
    assert_eq!(db.graph(Color::White).node_count(), 11);
}

#[test]
fn database_of_merged_sources() {
    let white = vec![
        (s("italian.pgn"), graph_of(&[&["e4", "e5", "Nf3"]])),
        (s("queens.pgn"), graph_of(&[&["d4", "d5"], &["e4", "e5", "Nc3"]])),
    ];
    let black = vec![(s("caro.pgn"), graph_of(&[&["e4", "c6"]]))];
    let db = OpeningDatabase::from_sources(&white, &black).unwrap();
    assert_eq!(db.graph(Color::White).node_count(), 6);
    assert_eq!(db.graph(Color::Black).node_count(), 2);
    assert!(db.start_drill(Color::White, &history(&["e4", "e5", "Nc3"])).is_some());
    assert!(db.start_drill(Color::White, &history(&["e4", "e5", "Nf3"])).is_some());
    assert!(db.start_drill(Color::Black, &history(&["e4", "c6"])).is_some());
    let empty = OpeningDatabase::from_sources(&vec![], &vec![]).unwrap();
    assert_eq!(empty.graph(Color::White).node_count(), 0);
}

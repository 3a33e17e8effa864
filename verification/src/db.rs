//! The repertoire of both sides and the drill that walks one of them in step
//! with a game.

use fastrand::Rng;
use vstd::prelude::*;

use crate::builder::GameSide;
use crate::builder::PgnVisitor;
use crate::graph::OpeningGraph;
use crate::lines::Cursor;
use crate::merge::all_lines;
use crate::merge::graphs_of;
use crate::merge::merge;
use crate::merge::total_nodes;
use crate::model::ids;
use crate::model::lemma_first_match_is_member;
use crate::model::opt_id;
use crate::model::texts;
use crate::model::MoveGraph;

verus! {

/// `fastrand::Rng`, opaque to the verifier.
#[verifier::external_type_specification]
#[verifier::external_body]
pub struct ExRng(Rng);

/// `Rng::new`: a generator seeded from the thread's own; nothing is claimed
/// of it.
#[verifier::external_body]
fn rng_new() -> Rng {
    Rng::new()
}

/// `Rng::choice`: claims that nothing is picked from an empty list, and that
/// what is picked from another is one of its items.
#[verifier::external_body]
fn rng_choice(rng: &mut Rng, among: &Vec<usize>) -> (pick: Option<usize>)
    ensures
        among@.len() == 0 ==> pick is None,
        among@.len() > 0 ==> pick is Some && among@.contains(pick->0),
{
    rng.choice(among.iter()).copied()
}

/// How a move stands to the preparation.
#[derive(Clone, Copy, Debug, PartialEq, Eq, PartialOrd, Ord, Hash, Structural)]
pub enum MoveAssessment {
    /// You're still in prep
    InPrep,
    /// You've gone wrong somewhere
    OutOfPrep,
    /// Mission completed!
    PrepEnded,
}

/// The side that a repertoire is prepared for.
#[derive(Clone, Copy, Debug, PartialEq, Eq, Hash, Structural)]
pub enum Color {
    White,
    Black,
}

/// The prepared lines of both sides.
pub struct OpeningDatabase {
    white_openings: OpeningGraph,
    black_openings: OpeningGraph,
}

/// A drill: a position in one repertoire, whose turn it is, and whether the
/// drill still runs.
pub struct GameState<'a> {
    openings: &'a OpeningGraph,
    current_move: Option<usize>,
    player_turn: bool,
    still_running: bool,
    rng: Rng,
}

/// Whether the player is to move after `plies` moves of a drill that the
/// player began as `player`.
pub open spec fn turn_after(player: Color, plies: nat) -> bool {
    (player == Color::White) == (plies % 2 == 0)
}

impl Default for OpeningDatabase {
    fn default() -> (db: Self)
        ensures
            db.white() == MoveGraph::empty(),
            db.black() == MoveGraph::empty(),
            db.wf(),
    {
        OpeningDatabase { white_openings: OpeningGraph::new(), black_openings: OpeningGraph::new() }
    }
}

impl OpeningDatabase {
    /// What White's repertoire holds.
    pub closed spec fn white(&self) -> MoveGraph {
        self.white_openings@
    }

    /// What Black's repertoire holds.
    pub closed spec fn black(&self) -> MoveGraph {
        self.black_openings@
    }

    /// What the repertoire of `player` holds.
    pub open spec fn spec_graph(&self, player: Color) -> MoveGraph {
        match player {
            Color::White => self.white(),
            Color::Black => self.black(),
        }
    }

    /// Both repertoires are well formed.
    pub open spec fn wf(&self) -> bool {
        self.white().wf() && self.black().wf()
    }

    /// A database of two given repertoires.
    pub fn new(white: OpeningGraph, black: OpeningGraph) -> (db: Self)
        requires
            white.wf(),
            black.wf(),
        ensures
            db.white() == white@,
            db.black() == black@,
            db.wf(),
    {
        OpeningDatabase { white_openings: white, black_openings: black }
    }

    /// The repertoire of `player`.
    pub fn graph(&self, player: Color) -> (g: &OpeningGraph)
        ensures
            g@ == self.spec_graph(player),
    {
        match player {
            Color::White => &self.white_openings,
            Color::Black => &self.black_openings,
        }
    }

    /// The repertoires of the two sides, each folded together from the
    /// graphs of its sources. There is no database where the sources of a
    /// side together hold more moves than a graph can.
    pub fn from_sources(
        white: &Vec<(String, OpeningGraph)>,
        black: &Vec<(String, OpeningGraph)>,
    ) -> (db: Option<Self>)
        requires
            forall|i: int| 0 <= i < white@.len() ==> (#[trigger] white@[i]).1@.is_forest(),
            forall|i: int| 0 <= i < black@.len() ==> (#[trigger] black@[i]).1@.is_forest(),
        ensures
            db is Some <==> total_nodes(graphs_of(white@)) < u32::MAX && total_nodes(
                graphs_of(black@),
            ) < u32::MAX,
            db matches Some(both) ==> {
                &&& both.wf()
                &&& both.white().is_forest()
                &&& both.black().is_forest()
                &&& both.white().lines() == all_lines(graphs_of(white@))
                &&& both.black().lines() == all_lines(graphs_of(black@))
            },
    {
        match merge(white) {
            Some(white_openings) => match merge(black) {
                Some(black_openings) => Some(OpeningDatabase { white_openings, black_openings }),
                None => None,
            },
            None => None,
        }
    }

    /// A builder on copies of both repertoires that reads the games in which
    /// `player` had White into the one and those in which the player had
    /// Black into the other. The database itself stays as it is until the
    /// builder is handed back to `adopt`.
    pub fn recorder(&self, player: String) -> (visitor: PgnVisitor)
        requires
            self.wf(),
        ensures
            visitor.wf(),
            visitor.white() == self.white(),
            visitor.black() == self.black(),
            visitor.cursor() == Cursor::start(),
            visitor.player() == Some(player@),
            visitor.side() == GameSide::Unknown,
    {
        PgnVisitor::new_game_recorder(
            self.white_openings.clone(),
            self.black_openings.clone(),
            player,
        )
    }

    /// Takes the graphs of a builder for the repertoires of the two sides.
    pub fn adopt(&mut self, visitor: PgnVisitor)
        requires
            visitor.wf(),
        ensures
            final(self).wf(),
            final(self).white() == visitor.white(),
            final(self).black() == visitor.black(),
    {
        let (white, black) = visitor.into_graphs();
        self.white_openings = white;
        self.black_openings = black;
    }

    /// Starts a drill of the repertoire of `player` after the moves `moves`,
    /// with a generator of its own for the replies. There is no drill where
    /// the moves leave the repertoire.
    pub fn start_drill<'a>(&'a self, player: Color, moves: &Vec<String>) -> (drill: Option<
        GameState<'a>,
    >)
        requires
            self.wf(),
        ensures
            drill is Some <==> self.spec_graph(player).walk(None, texts(moves@)) is Some,
            drill is Some ==> {
                &&& drill->0.wf()
                &&& drill->0.graph() == self.spec_graph(player)
                &&& Some(drill->0.position()) == self.spec_graph(player).walk(None, texts(moves@))
                &&& drill->0.player_to_move() == turn_after(player, moves@.len())
                &&& drill->0.running()
            },
    {
        self.start_drill_with(player, moves, rng_new())
    }

    /// Starts a drill as `start_drill` does, with the generator `rng` for the
    /// replies.
    pub fn start_drill_with<'a>(&'a self, player: Color, moves: &Vec<String>, rng: Rng) -> (drill:
        Option<GameState<'a>>)
        requires
            self.wf(),
        ensures
            drill is Some <==> self.spec_graph(player).walk(None, texts(moves@)) is Some,
            drill is Some ==> {
                &&& drill->0.wf()
                &&& drill->0.graph() == self.spec_graph(player)
                &&& Some(drill->0.position()) == self.spec_graph(player).walk(None, texts(moves@))
                &&& drill->0.player_to_move() == turn_after(player, moves@.len())
                &&& drill->0.running()
            },
    {
        let openings = self.graph(player);
        let mut state = GameState {
            openings,
            current_move: None,
            player_turn: player == Color::White,
            still_running: true,
            rng,
        };
        let ghost g = openings@;
        let ghost line = texts(moves@);
        let mut i: usize = 0;
        assert(line.skip(0) == line);
        while i < moves.len()
            invariant
                i <= moves@.len(),
                line == texts(moves@),
                g == self.spec_graph(player),
                state.wf(),
                state.graph() == g,
                state.running(),
                state.player_to_move() == turn_after(player, i as nat),
                g.walk(None, line) == g.walk(state.position(), line.skip(i as int)),
            decreases moves@.len() - i,
        {
            let ghost rest = line.skip(i as int);
            assert(rest.first() == moves@[i as int]@);
            assert(rest.drop_first() == line.skip(i + 1));
            let prep = state.apply_move(&moves[i]);
            if prep != MoveAssessment::InPrep {
                return None;
            }
            i += 1;
        }
        Some(state)
    }
}

impl<'a> GameState<'a> {
    /// What the repertoire of the drill holds.
    pub closed spec fn graph(&self) -> MoveGraph {
        self.openings@
    }

    /// The last move of the drill, none before the first.
    pub closed spec fn position(&self) -> Option<int> {
        opt_id(self.current_move)
    }

    /// Whether the player is to move.
    pub closed spec fn player_to_move(&self) -> bool {
        self.player_turn
    }

    /// Whether the drill has met no end yet.
    pub closed spec fn running(&self) -> bool {
        self.still_running
    }

    /// The repertoire is well formed and the drill stands on one of its
    /// moves, or before the first.
    pub open spec fn wf(&self) -> bool {
        &&& self.graph().wf()
        &&& self.position() matches Some(n) ==> self.graph().has(n)
    }

    /// The moves that the repertoire accepts next.
    pub open spec fn candidates(&self) -> Seq<int> {
        self.graph().candidates(self.position())
    }

    pub fn still_running(&self) -> (running: bool)
        ensures
            running == self.running(),
    {
        self.still_running
    }

    pub fn is_player_turn(&self) -> (turn: bool)
        ensures
            turn == self.player_to_move(),
    {
        self.player_turn
    }

    /// The handle of the last move, none before the first.
    pub fn current_move(&self) -> (at: Option<usize>)
        ensures
            opt_id(at) == self.position(),
    {
        self.current_move
    }

    /// How the position stands: out of the preparation before any move, in
    /// it on a move that has replies, at its end on one that has none.
    pub fn check_move(&self) -> (prep: MoveAssessment)
        requires
            self.wf(),
        ensures
            prep == (match self.position() {
                None => MoveAssessment::OutOfPrep,
                Some(n) => if self.graph().children(n).len() > 0 {
                    MoveAssessment::InPrep
                } else {
                    MoveAssessment::PrepEnded
                },
            }),
    {
        match self.current_move {
            Some(current) => {
                let replies = self.openings.children(current);
                assert(ids(replies@).len() == replies@.len());
                if replies.len() > 0 {
                    MoveAssessment::InPrep
                } else {
                    MoveAssessment::PrepEnded
                }
            },
            None => MoveAssessment::OutOfPrep,
        }
    }

    /// The notations that the repertoire accepts next, in the order of the
    /// candidates.
    pub fn accepted_moves(&self) -> (moves: Vec<String>)
        requires
            self.wf(),
        ensures
            texts(moves@) == self.graph().notations(self.candidates()),
    {
        let among = self.openings.candidates(self.current_move);
        let mut moves: Vec<String> = Vec::new();
        let mut i: usize = 0;
        assert(ids(among@).len() == among@.len());
        while i < among.len()
            invariant
                i <= among@.len(),
                ids(among@) == self.candidates(),
                forall|k: int| 0 <= k < among@.len() ==> self.graph().has(#[trigger] among@[k] as int),
                moves@.len() == i,
                forall|k: int|
                    0 <= k < i ==> (#[trigger] moves@[k])@ == self.graph().labels[among@[k] as int],
            decreases among@.len() - i,
        {
            moves.push(self.openings.node_notation(among[i]).clone());
            i += 1;
        }
        assert forall|k: int| 0 <= k < moves@.len() implies texts(moves@)[k]
            == self.graph().notations(self.candidates())[k] by {
            assert(ids(among@)[k] == among@[k] as int);
        }
        assert(texts(moves@) =~= self.graph().notations(self.candidates()));
        moves
    }

    /// Holds the player's move `san` against the repertoire. A move that a
    /// candidate holds leads to the first such candidate and passes the
    /// turn. Any other move ends the drill: out of the preparation where
    /// there were candidates, at its end where there were none.
    pub fn apply_move(&mut self, san: &String) -> (prep: MoveAssessment)
        requires
            old(self).wf(),
        ensures
            final(self).wf(),
            final(self).graph() == old(self).graph(),
            match old(self).graph().step(old(self).position(), san@) {
                Some(next) => {
                    &&& prep == MoveAssessment::InPrep
                    &&& final(self).position() == Some(next)
                    &&& final(self).player_to_move() == !old(self).player_to_move()
                    &&& final(self).running() == old(self).running()
                },
                None => {
                    &&& prep == if old(self).candidates().len() > 0 {
                        MoveAssessment::OutOfPrep
                    } else {
                        MoveAssessment::PrepEnded
                    }
                    &&& final(self).position() == old(self).position()
                    &&& final(self).player_to_move() == old(self).player_to_move()
                    &&& !final(self).running()
                },
            },
    {
        let among = self.openings.candidates(self.current_move);
        assert(ids(among@).len() == among@.len());
        match self.openings.find_first(&among, san) {
            Some(next) => {
                proof {
                    lemma_first_match_is_member(self.graph(), ids(among@), san@);
                }
                self.current_move = Some(next);
                self.player_turn = !self.player_turn;
                MoveAssessment::InPrep
            },
            None => {
                self.still_running = false;
                if among.len() > 0 {
                    MoveAssessment::OutOfPrep
                } else {
                    MoveAssessment::PrepEnded
                }
            },
        }
    }

    /// Plays the candidate `next` for the side that is not the player's:
    /// the drill moves there, the turn passes, and the notation played is
    /// returned.
    pub fn play(&mut self, next: usize) -> (san: String)
        requires
            old(self).wf(),
            old(self).candidates().contains(next as int),
            old(self).graph().has(next as int),
        ensures
            final(self).wf(),
            final(self).graph() == old(self).graph(),
            final(self).position() == Some(next as int),
            final(self).player_to_move() == !old(self).player_to_move(),
            final(self).running() == old(self).running(),
            san@ == old(self).graph().labels[next as int],
    {
        self.current_move = Some(next);
        self.player_turn = !self.player_turn;
        self.openings.node_notation(next).clone()
    }

    /// Plays one of the candidates, picked at random with equal chances, and
    /// returns its notation; nothing where there is no candidate.
    pub fn make_move(&mut self) -> (san: Option<String>)
        requires
            old(self).wf(),
        ensures
            final(self).wf(),
            final(self).graph() == old(self).graph(),
            final(self).running() == old(self).running(),
            san is None <==> old(self).candidates().len() == 0,
            san is None ==> {
                &&& final(self).position() == old(self).position()
                &&& final(self).player_to_move() == old(self).player_to_move()
            },
            san is Some ==> {
                &&& final(self).position() is Some
                &&& old(self).candidates().contains(final(self).position()->0)
                &&& san->0@ == old(self).graph().labels[final(self).position()->0]
                &&& final(self).player_to_move() == !old(self).player_to_move()
            },
    {
        let among = self.openings.candidates(self.current_move);
        assert(ids(among@).len() == among@.len());
        match rng_choice(&mut self.rng, &among) {
            Some(next) => {
                proof {
                    let k = choose|k: int| 0 <= k < among@.len() && among@[k] == next;
                    assert(ids(among@)[k] == next as int);
                }
                Some(self.play(next))
            },
            None => None,
        }
    }

    /// Holds the player's move `san` against the repertoire and, where it is
    /// a move of the preparation, plays a reply to it. The reply is missing
    /// where the move left or ended the preparation, and where it was the
    /// last move of its line.
    pub fn reply_to(&mut self, san: &String) -> (answer: (MoveAssessment, Option<String>))
        requires
            old(self).wf(),
        ensures
            final(self).wf(),
            final(self).graph() == old(self).graph(),
            match old(self).graph().step(old(self).position(), san@) {
                Some(next) => {
                    &&& answer.0 == MoveAssessment::InPrep
                    &&& final(self).running() == old(self).running()
                    &&& answer.1 is None <==> old(self).graph().children(next).len() == 0
                    &&& answer.1 is None ==> {
                        &&& final(self).position() == Some(next)
                        &&& final(self).player_to_move() == !old(self).player_to_move()
                    }
                    &&& answer.1 is Some ==> {
                        &&& final(self).position() is Some
                        &&& old(self).graph().children(next).contains(final(self).position()->0)
                        &&& answer.1->0@ == old(self).graph().labels[final(self).position()->0]
                        &&& final(self).player_to_move() == old(self).player_to_move()
                    }
                },
                None => {
                    &&& answer.0 == if old(self).candidates().len() > 0 {
                        MoveAssessment::OutOfPrep
                    } else {
                        MoveAssessment::PrepEnded
                    }
                    &&& answer.1 is None
                    &&& final(self).position() == old(self).position()
                    &&& final(self).player_to_move() == old(self).player_to_move()
                    &&& !final(self).running()
                },
            },
    {
        let prep = self.apply_move(san);
        if prep == MoveAssessment::InPrep {
            let reply = self.make_move();
            (prep, reply)
        } else {
            (prep, None)
        }
    }

    /// Plays the first move of a drill where it is not the player's: a move
    /// is made only when the turn is not the player's.
    pub fn open(&mut self) -> (san: Option<String>)
        requires
            old(self).wf(),
        ensures
            final(self).wf(),
            final(self).graph() == old(self).graph(),
            final(self).running() == old(self).running(),
            san is None <==> old(self).player_to_move() || old(self).candidates().len() == 0,
            san is None ==> {
                &&& final(self).position() == old(self).position()
                &&& final(self).player_to_move() == old(self).player_to_move()
            },
            san is Some ==> {
                &&& final(self).position() is Some
                &&& old(self).candidates().contains(final(self).position()->0)
                &&& san->0@ == old(self).graph().labels[final(self).position()->0]
                &&& final(self).player_to_move()
            },
    {
        if self.player_turn {
            None
        } else {
            self.make_move()
        }
    }
}

} // verus!

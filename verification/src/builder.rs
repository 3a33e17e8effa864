//! The line builder: lays the moves of recorded games into move graphs, one
//! game after the other, and the games of a named player into the graph of
//! the side that the player had.

use vstd::prelude::*;
use vstd::string::StringSliceAdditionalSpecFns;
use vstd::utf8::encode_utf8;

use crate::graph::OpeningGraph;
use crate::lines::after_begin_variation;
use crate::lines::after_end_variation;
use crate::lines::after_san;
use crate::lines::anchor_of;
use crate::lines::Cursor;
use crate::lines::VariationAnchor;
use crate::model::ids;
use crate::model::lemma_with_child;
use crate::model::lemma_with_root;
use crate::model::opt_id;
use crate::model::opt_ids;
use crate::model::MoveGraph;

verus! {

/// The side that the player had in a game, as far as the headers of the game
/// have told.
#[derive(Clone, Copy, Debug, PartialEq, Eq, Structural)]
pub enum GameSide {
    Unknown,
    White,
    Black,
}

/// Reads games move by move into a graph, or into one graph for each side.
pub struct PgnVisitor {
    white: OpeningGraph,
    black: OpeningGraph,
    node_stack: Vec<Option<usize>>,
    first: bool,
    player: Option<String>,
    side: GameSide,
}

/// The header key that names the player who had White.
pub open spec fn white_key() -> Seq<u8> {
    encode_utf8("White"@)
}

/// The header key that names the player who had Black.
pub open spec fn black_key() -> Seq<u8> {
    encode_utf8("Black"@)
}

/// Whether two byte strings are the same.
pub fn bytes_eq(a: &[u8], b: &[u8]) -> (same: bool)
    ensures
        same == (a@ == b@),
{
    if a.len() != b.len() {
        return false;
    }
    let mut i: usize = 0;
    while i < a.len()
        invariant
            i <= a@.len(),
            a@.len() == b@.len(),
            forall|k: int| 0 <= k < i ==> a@[k] == b@[k],
        decreases a@.len() - i,
    {
        if a[i] != b[i] {
            return false;
        }
        i += 1;
    }
    assert(a@ =~= b@);
    true
}

/// Lays the move `san` into `graph` at the cursor that `stack` and `first`
/// make, and gives the node that holds it.
fn record(graph: &mut OpeningGraph, stack: &mut Vec<Option<usize>>, first: bool, san: String) -> (node:
    usize)
    requires
        old(graph).wf(),
        old(graph)@.has_room(),
        (Cursor { stack: opt_ids(old(stack)@), first }).within(old(graph)@),
    ensures
        final(graph).wf(),
        old(graph)@.is_forest() ==> final(graph)@.is_forest(),
        (final(graph)@, Cursor { stack: opt_ids(final(stack)@), first: false }) == after_san(
            old(graph)@,
            Cursor { stack: opt_ids(old(stack)@), first },
            san@,
        ),
        (Cursor { stack: opt_ids(final(stack)@), first: false }).within(final(graph)@),
        final(stack)@.len() > 0,
        final(stack)@.last() == Some(node),
{
    let ghost g = graph@;
    let ghost before = opt_ids(stack@);
    let n = stack.len();
    proof {
        lemma_with_root(g, san@);
    }
    let node = if first {
        let roots = graph.roots();
        match graph.find_last(&roots, &san) {
            Some(root) => root,
            None => graph.add_root(san),
        }
    } else if n == 0 {
        graph.add_root(san)
    } else {
        assert(before.last() == opt_id(stack@[n - 1]));
        match stack[n - 1] {
            Some(last) => {
                assert(before[n - 1] == Some(last as int));
                proof {
                    lemma_with_child(g, last as int, san@);
                }
                let replies = graph.children(last);
                match graph.find_first(&replies, &san) {
                    Some(reply) => reply,
                    None => graph.add_child(last, san),
                }
            },
            None => graph.add_root(san),
        }
    };
    if n > 0 {
        stack.pop();
    }
    stack.push(Some(node));
    proof {
        let c = Cursor { stack: before, first };
        if n > 0 {
            assert(opt_ids(stack@) == before.drop_last().push(Some(node as int)));
        } else {
            assert(opt_ids(stack@) == before.push(Some(node as int)));
        }
        assert(opt_ids(stack@) == c.moved_to(node as int).stack);
        assert forall|i: int| 0 <= i < opt_ids(stack@).len() implies ((#[trigger] opt_ids(
            stack@,
        )[i]) matches Some(k) ==> graph@.has(k)) by {
            if i < n - 1 {
                assert(opt_ids(stack@)[i] == before[i]);
            }
        }
    }
    node
}

impl PgnVisitor {
    /// What the graph of White's games holds, or the only graph.
    pub closed spec fn white(&self) -> MoveGraph {
        self.white@
    }

    /// What the graph of Black's games holds.
    pub closed spec fn black(&self) -> MoveGraph {
        self.black@
    }

    /// Where the game that is read stands.
    pub closed spec fn cursor(&self) -> Cursor {
        Cursor { stack: opt_ids(self.node_stack@), first: self.first }
    }

    /// The player whose games are sorted by side, if any.
    pub closed spec fn player(&self) -> Option<Seq<char>> {
        match self.player {
            Some(name) => Some(name@),
            None => None,
        }
    }

    /// The side that the player had in the game that is read.
    pub closed spec fn side(&self) -> GameSide {
        self.side
    }

    /// What the graph holds that the game that is read goes to: Black's for
    /// a game in which the player had Black, White's for any other.
    pub open spec fn target(&self) -> MoveGraph {
        if self.side() == GameSide::Black {
            self.black()
        } else {
            self.white()
        }
    }

    /// Both graphs are well formed and the cursor stands in the graph that the
    /// game goes to.
    pub open spec fn wf(&self) -> bool {
        &&& self.white().wf()
        &&& self.black().wf()
        &&& self.cursor().within(self.target())
    }

    /// A builder that reads every game into `pgn`.
    pub fn new_with_graph(pgn: OpeningGraph) -> (visitor: Self)
        requires
            pgn.wf(),
        ensures
            visitor.wf(),
            visitor.white() == pgn@,
            visitor.black() == MoveGraph::empty(),
            visitor.cursor() == Cursor::start(),
            visitor.player() is None,
            visitor.side() == GameSide::Unknown,
    {
        let visitor = PgnVisitor {
            white: pgn,
            black: OpeningGraph::new(),
            node_stack: Vec::new(),
            first: true,
            player: None,
            side: GameSide::Unknown,
        };
        assert(visitor.cursor().stack == Seq::<Option<int>>::empty());
        visitor
    }

    /// A builder that reads the games in which `player` had White into
    /// `white` and those in which the player had Black into `black`.
    pub fn new_game_recorder(white: OpeningGraph, black: OpeningGraph, player: String) -> (visitor:
        Self)
        requires
            white.wf(),
            black.wf(),
        ensures
            visitor.wf(),
            visitor.white() == white@,
            visitor.black() == black@,
            visitor.cursor() == Cursor::start(),
            visitor.player() == Some(player@),
            visitor.side() == GameSide::Unknown,
    {
        let visitor = PgnVisitor {
            white,
            black,
            node_stack: Vec::new(),
            first: true,
            player: Some(player),
            side: GameSide::Unknown,
        };
        assert(visitor.cursor().stack == Seq::<Option<int>>::empty());
        visitor
    }

    /// Whether the graph that the game goes to can take one more move.
    pub fn has_room(&self) -> (room: bool)
        ensures
            room == self.target().has_room(),
    {
        if self.side == GameSide::Black {
            self.black.has_room()
        } else {
            self.white.has_room()
        }
    }

    /// Reads a header of the game. Where it gives the player's name as the one
    /// who had White or Black, the player had that side in the game. A header
    /// that comes after the first move of a game is no header of the game,
    /// and is passed over.
    pub fn header(&mut self, key: &[u8], value: &[u8])
        requires
            old(self).wf(),
        ensures
            final(self).wf(),
            final(self).white() == old(self).white(),
            final(self).black() == old(self).black(),
            final(self).cursor() == old(self).cursor(),
            final(self).player() == old(self).player(),
            final(self).side() == (match old(self).player() {
                Some(name) => if !old(self).cursor().first || value@ != encode_utf8(name) {
                    old(self).side()
                } else if key@ == white_key() {
                    GameSide::White
                } else if key@ == black_key() {
                    GameSide::Black
                } else {
                    old(self).side()
                },
                None => old(self).side(),
            }),
    {
        if !self.first {
            return ;
        }
        let side = if bytes_eq(key, "White".as_bytes()) {
            GameSide::White
        } else if bytes_eq(key, "Black".as_bytes()) {
            GameSide::Black
        } else {
            return ;
        };
        let named = match &self.player {
            Some(name) => bytes_eq(value, name.as_str().as_bytes()),
            None => false,
        };
        if named {
            self.side = side;
        }
    }

    /// Ends the game: no line is open, the next move is a first move, and
    /// nothing is known of the side that the player has in the next game.
    pub fn end_game(&mut self)
        requires
            old(self).wf(),
        ensures
            final(self).wf(),
            final(self).white() == old(self).white(),
            final(self).black() == old(self).black(),
            final(self).cursor() == Cursor::start(),
            final(self).player() == old(self).player(),
            final(self).side() == GameSide::Unknown,
    {
        self.node_stack.clear();
        self.first = true;
        self.side = GameSide::Unknown;
        assert(self.cursor().stack == Seq::<Option<int>>::empty());
    }

    /// Reads a move of the game into the graph that the game goes to, and
    /// gives the node that holds it.
    pub fn san(&mut self, san_plus: String) -> (node: usize)
        requires
            old(self).wf(),
            old(self).target().has_room(),
        ensures
            final(self).wf(),
            final(self).side() == old(self).side(),
            (final(self).target(), final(self).cursor()) == after_san(
                old(self).target(),
                old(self).cursor(),
                san_plus@,
            ),
            old(self).side() == GameSide::Black ==> final(self).white() == old(self).white(),
            old(self).side() != GameSide::Black ==> final(self).black() == old(self).black(),
            old(self).target().is_forest() ==> final(self).target().is_forest(),
            final(self).player() == old(self).player(),
            final(self).cursor().stack.len() > 0,
            final(self).cursor().stack.last() == Some(node as int),
    {
        let first = self.first;
        self.first = false;
        let node = if self.side == GameSide::Black {
            record(&mut self.black, &mut self.node_stack, first, san_plus)
        } else {
            record(&mut self.white, &mut self.node_stack, first, san_plus)
        };
        assert(opt_ids(self.node_stack@).last() == opt_id(self.node_stack@.last()));
        node
    }

    /// Opens a variation: the moves that follow stand in place of the last
    /// move. Says what it met; see `VariationAnchor`.
    pub fn begin_variation(&mut self) -> (anchor: VariationAnchor)
        requires
            old(self).wf(),
        ensures
            final(self).wf(),
            final(self).white() == old(self).white(),
            final(self).black() == old(self).black(),
            final(self).side() == old(self).side(),
            final(self).player() == old(self).player(),
            anchor == anchor_of(old(self).target(), old(self).cursor()),
            final(self).cursor() == after_begin_variation(old(self).target(), old(self).cursor()),
    {
        let n = self.node_stack.len();
        if n == 0 {
            return VariationAnchor::NoMove;
        }
        let ghost before = opt_ids(self.node_stack@);
        assert(before.last() == opt_id(self.node_stack@[n - 1]));
        let (entry, anchor) = match self.node_stack[n - 1] {
            None => (None, VariationAnchor::AtStart),
            Some(last) => {
                let parents = if self.side == GameSide::Black {
                    self.black.parents(last)
                } else {
                    self.white.parents(last)
                };
                assert(ids(parents@).len() == parents@.len());
                if parents.len() == 0 {
                    (None, VariationAnchor::AtStart)
                } else {
                    assert(ids(parents@)[0] == parents@[0] as int);
                    if parents.len() > 1 {
                        (Some(parents[0]), VariationAnchor::ExtraParents)
                    } else {
                        (Some(parents[0]), VariationAnchor::Sibling)
                    }
                }
            },
        };
        self.node_stack.push(entry);
        assert(opt_ids(self.node_stack@) == before.push(opt_id(entry)));
        assert forall|i: int| 0 <= i < self.cursor().stack.len() implies ((
        #[trigger] self.cursor().stack[i]) matches Some(k) ==> self.target().has(k)) by {
            if i < n {
                assert(self.cursor().stack[i] == before[i]);
            }
        }
        anchor
    }

    /// Closes the variation that was opened last.
    pub fn end_variation(&mut self)
        requires
            old(self).wf(),
        ensures
            final(self).wf(),
            final(self).white() == old(self).white(),
            final(self).black() == old(self).black(),
            final(self).side() == old(self).side(),
            final(self).player() == old(self).player(),
            final(self).cursor() == after_end_variation(old(self).cursor()),
    {
        let ghost before = opt_ids(self.node_stack@);
        self.node_stack.pop();
        assert(before.len() > 0 ==> opt_ids(self.node_stack@) == before.drop_last());
        assert(before.len() == 0 ==> opt_ids(self.node_stack@) == before);
        assert forall|i: int| 0 <= i < self.cursor().stack.len() implies ((
        #[trigger] self.cursor().stack[i]) matches Some(k) ==> self.target().has(k)) by {
            assert(self.cursor().stack[i] == before[i]);
        }
    }

    /// The graph that was read into, or that of White's games.
    pub fn into_graph(self) -> (pgn: OpeningGraph)
        requires
            self.wf(),
        ensures
            pgn@ == self.white(),
            pgn.wf(),
    {
        self.white
    }

    /// The graphs of White's games and of Black's.
    pub fn into_graphs(self) -> (graphs: (OpeningGraph, OpeningGraph))
        requires
            self.wf(),
        ensures
            graphs.0@ == self.white(),
            graphs.1@ == self.black(),
            graphs.0.wf(),
            graphs.1.wf(),
    {
        (self.white, self.black)
    }
}

} // verus!

//! What the moves of a game do to a move graph: the rules by which a line and
//! its variations are laid into the graph, stated without any machine type.

use vstd::prelude::*;

use crate::model::MoveGraph;

verus! {

/// Where a game stands in the graph while it is read. `stack` holds one
/// position for each line that is open, the innermost last; a position is the
/// last move of its line, or none where the line has no move yet. `first`
/// says that the game has had no move.
pub struct Cursor {
    pub stack: Seq<Option<int>>,
    pub first: bool,
}

/// What a game is made of once it is cut into pieces: moves, and the marks
/// that open and close a variation.
pub enum Token {
    San(Seq<char>),
    BeginVariation,
    EndVariation,
}

/// What opening a variation met.
#[derive(Clone, Copy, Debug, PartialEq, Eq, Structural)]
pub enum VariationAnchor {
    /// The variation replaces the last move: it starts at that move's parent.
    Sibling,
    /// As `Sibling`, but the last move has more than one parent; the variation
    /// starts at the parent that was added last.
    ExtraParents,
    /// The variation replaces a first move: it starts before any move.
    AtStart,
    /// No line is open, so there is no move to replace: nothing was done.
    NoMove,
}

impl Cursor {
    /// The cursor of a game that has not begun.
    pub open spec fn start() -> Cursor {
        Cursor { stack: Seq::empty(), first: true }
    }

    /// Every position on the stack is a node of `g`, and a game without a
    /// move has no open line.
    pub open spec fn within(self, g: MoveGraph) -> bool {
        &&& self.first ==> self.stack.len() == 0
        &&& forall|i: int|
            0 <= i < self.stack.len() ==> ((#[trigger] self.stack[i]) matches Some(n) ==> g.has(n))
    }

    /// The cursor with the innermost position replaced by `n`, or with `n` as
    /// its only position where no line was open.
    pub open spec fn moved_to(self, n: int) -> Cursor {
        if self.stack.len() > 0 {
            Cursor { stack: self.stack.drop_last().push(Some(n)), first: false }
        } else {
            Cursor { stack: self.stack.push(Some(n)), first: false }
        }
    }
}

/// The graph and cursor after the move `san`. The first move of a game goes
/// to the last root that holds it; a later move to the first reply to the
/// current position that holds it. Where there is no such node, one is added.
/// A move that finds no current position becomes a new root unseen.
pub open spec fn after_san(g: MoveGraph, c: Cursor, san: Seq<char>) -> (MoveGraph, Cursor) {
    let fresh = g.labels.len() as int;
    if c.first {
        match g.last_match(g.roots(), san) {
            Some(root) => (g, c.moved_to(root)),
            None => (g.with_root(san), c.moved_to(fresh)),
        }
    } else if c.stack.len() > 0 && c.stack.last() is Some {
        let at = c.stack.last()->0;
        match g.first_match(g.children(at), san) {
            Some(reply) => (g, c.moved_to(reply)),
            None => (g.with_child(at, san), c.moved_to(fresh)),
        }
    } else {
        (g.with_root(san), c.moved_to(fresh))
    }
}

/// What opening a variation meets at the cursor `c`.
pub open spec fn anchor_of(g: MoveGraph, c: Cursor) -> VariationAnchor {
    if c.stack.len() == 0 {
        VariationAnchor::NoMove
    } else {
        match c.stack.last() {
            None => VariationAnchor::AtStart,
            Some(at) => if g.parents(at).len() == 0 {
                VariationAnchor::AtStart
            } else if g.parents(at).len() == 1 {
                VariationAnchor::Sibling
            } else {
                VariationAnchor::ExtraParents
            },
        }
    }
}

/// The cursor after a variation was opened: a new innermost line that starts
/// where the last move started, so that the next move stands beside it.
pub open spec fn after_begin_variation(g: MoveGraph, c: Cursor) -> Cursor {
    match anchor_of(g, c) {
        VariationAnchor::NoMove => c,
        VariationAnchor::AtStart => Cursor { stack: c.stack.push(None), first: c.first },
        _ => Cursor { stack: c.stack.push(Some(g.parents(c.stack.last()->0)[0])), first: c.first },
    }
}

/// The cursor after a variation was closed: the line around it is the
/// innermost again, where it was.
pub open spec fn after_end_variation(c: Cursor) -> Cursor {
    if c.stack.len() > 0 {
        Cursor { stack: c.stack.drop_last(), first: c.first }
    } else {
        c
    }
}

/// The graph and cursor after one token.
pub open spec fn after_token(g: MoveGraph, c: Cursor, t: Token) -> (MoveGraph, Cursor) {
    match t {
        Token::San(san) => after_san(g, c, san),
        Token::BeginVariation => (g, after_begin_variation(g, c)),
        Token::EndVariation => (g, after_end_variation(c)),
    }
}

/// The graph and cursor after the tokens `tokens`, read in order.
pub open spec fn after_tokens(g: MoveGraph, c: Cursor, tokens: Seq<Token>) -> (MoveGraph, Cursor)
    decreases tokens.len(),
{
    if tokens.len() == 0 {
        (g, c)
    } else {
        let next = after_token(g, c, tokens.first());
        after_tokens(next.0, next.1, tokens.drop_first())
    }
}

/// The graph after a whole game was read into `g`.
pub open spec fn with_game(g: MoveGraph, game: Seq<Token>) -> MoveGraph {
    after_tokens(g, Cursor::start(), game).0
}

/// The graph after the games `games` were read into `g`, one after the other.
pub open spec fn with_games(g: MoveGraph, games: Seq<Seq<Token>>) -> MoveGraph
    decreases games.len(),
{
    if games.len() == 0 {
        g
    } else {
        with_games(with_game(g, games.first()), games.drop_first())
    }
}

} // verus!

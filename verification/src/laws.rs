//! What holds of every game and every forest: which lines a game adds, that
//! the order of the games does not matter for them, and that a game read
//! twice adds nothing the second time.

use vstd::prelude::*;

use crate::lines::after_token;
use crate::lines::anchor_of;
use crate::lines::VariationAnchor;
use crate::lines::after_tokens;
use crate::lines::with_game;
use crate::lines::with_games;
use crate::lines::Cursor;
use crate::lines::Token;
use crate::model::lemma_edge_neighbor;
use crate::model::lemma_last_match_is_member;
use crate::model::lemma_neighbor_edge;
use crate::model::lemma_line_ends;
use crate::model::lemma_lines_with_child;
use crate::model::lemma_lines_with_root;
use crate::model::lemma_miss_is_new;
use crate::model::lemma_once_with_child;
use crate::model::lemma_once_with_root;
use crate::model::lemma_match_same_labels;
use crate::model::lemma_neighbors_within;
use crate::model::lemma_parent_of_child;
use crate::model::lemma_roots_below;
use crate::model::lemma_single_parent;
use crate::model::lemma_with_child;
use crate::model::lemma_with_root;
use crate::model::lemma_first_match_is_member;
use crate::model::Direction;
use crate::model::MoveGraph;

verus! {

/// The shape of the open lines of a game: for each of them the line that its
/// position ends, or none where it has no position. It follows from the tokens
/// alone, whatever graph they are read into.
pub struct Shape {
    pub lines: Seq<Option<Seq<Seq<char>>>>,
    pub first: bool,
}

impl Shape {
    /// The shape of a game that has not begun.
    pub open spec fn start() -> Shape {
        Shape { lines: Seq::empty(), first: true }
    }

    /// Whether the innermost open line has a position.
    pub open spec fn has_position(self) -> bool {
        self.lines.len() > 0 && self.lines.last() is Some
    }

    /// The shape with the innermost line replaced by `line`, or with `line`
    /// as its only line where no line was open.
    pub open spec fn moved_to(self, line: Seq<Seq<char>>) -> Shape {
        if self.lines.len() > 0 {
            Shape { lines: self.lines.drop_last().push(Some(line)), first: false }
        } else {
            Shape { lines: self.lines.push(Some(line)), first: false }
        }
    }

    /// The line that the move `san` ends: the line of the position with one
    /// more move, or the move alone where it is the first of the game or
    /// finds no position.
    pub open spec fn line_with(self, san: Seq<char>) -> Seq<Seq<char>> {
        if !self.first && self.has_position() {
            self.lines.last()->0.push(san)
        } else {
            seq![san]
        }
    }

    /// The shape after one more token.
    pub open spec fn after(self, t: Token) -> Shape {
        match t {
            Token::San(san) => self.moved_to(self.line_with(san)),
            Token::BeginVariation => if self.lines.len() == 0 {
                self
            } else if self.has_position() && self.lines.last()->0.len() > 1 {
                Shape {
                    lines: self.lines.push(Some(self.lines.last()->0.drop_last())),
                    first: self.first,
                }
            } else {
                Shape { lines: self.lines.push(None), first: self.first }
            },
            Token::EndVariation => if self.lines.len() > 0 {
                Shape { lines: self.lines.drop_last(), first: self.first }
            } else {
                self
            },
        }
    }

    /// Whether the token is a move that becomes a root unseen: a move that is
    /// not the first and finds no position.
    pub open spec fn makes_unseen_root(self, t: Token) -> bool {
        t is San && !self.first && !self.has_position()
    }

    /// The lines that the moves among `tokens` end.
    pub open spec fn lines_named(self, tokens: Seq<Token>) -> Set<Seq<Seq<char>>>
        decreases tokens.len(),
    {
        if tokens.len() == 0 {
            Set::empty()
        } else {
            let rest = self.after(tokens.first()).lines_named(tokens.drop_first());
            match tokens.first() {
                Token::San(san) => rest.insert(self.line_with(san)),
                _ => rest,
            }
        }
    }

    /// No move among `tokens` becomes a root unseen.
    pub open spec fn tame(self, tokens: Seq<Token>) -> bool
        decreases tokens.len(),
    {
        tokens.len() > 0 ==> !self.makes_unseen_root(tokens.first()) && self.after(
            tokens.first(),
        ).tame(tokens.drop_first())
    }
}

/// The lines that the game `game` names: for each of its moves the line that
/// the move ends.
pub open spec fn game_lines(game: Seq<Token>) -> Set<Seq<Seq<char>>> {
    Shape::start().lines_named(game)
}

/// Every move of `game` but the first finds a position: no variation stands
/// in place of a first move, and no variation is closed that was not opened.
pub open spec fn is_tame(game: Seq<Token>) -> bool {
    Shape::start().tame(game)
}

/// The lines that the games `games` name.
pub open spec fn games_lines(games: Seq<Seq<Token>>) -> Set<Seq<Seq<char>>> {
    Set::new(
        |line: Seq<Seq<char>>|
            exists|i: int| 0 <= i < games.len() && game_lines(#[trigger] games[i]).contains(line),
    )
}

/// The cursor `c` in the forest `g` has the shape `shape`.
pub open spec fn shaped(g: MoveGraph, c: Cursor, shape: Shape) -> bool {
    &&& c.first == shape.first
    &&& c.stack.len() == shape.lines.len()
    &&& forall|i: int|
        0 <= i < c.stack.len() ==> match (#[trigger] c.stack[i], shape.lines[i]) {
            (Some(n), Some(line)) => g.line_of(n) == line,
            (None, None) => true,
            _ => false,
        }
}

/// The graph `h` keeps what `g` has settled: the nodes of `g` and their
/// parents, and every match that a search in `g` finds.
pub open spec fn keeps(g: MoveGraph, h: MoveGraph) -> bool {
    &&& forall|n: int| #[trigger] g.has(n) ==> h.has(n) && h.parents(n) == g.parents(n)
    &&& forall|n: int, san: Seq<char>|
        g.has(n) && (#[trigger] g.first_match(g.children(n), san)) is Some ==> h.first_match(
            h.children(n),
            san,
        ) == g.first_match(g.children(n), san)
    &&& forall|san: Seq<char>|
        (#[trigger] g.last_match(g.roots(), san)) is Some ==> h.last_match(h.roots(), san)
            == g.last_match(g.roots(), san)
}

/// A search that finds nothing from the back finds nothing from the front.
proof fn lemma_no_match(g: MoveGraph, among: Seq<int>, san: Seq<char>)
    requires
        forall|k: int| 0 <= k < among.len() ==> g.labels[#[trigger] among[k]] != san,
    ensures
        g.first_match(among, san) is None,
    decreases among.len(),
{
    if among.len() > 0 {
        assert(among.first() == among[0]);
        let rest = among.drop_first();
        assert forall|k: int| 0 <= k < rest.len() implies g.labels[#[trigger] rest[k]] != san by {
            assert(rest[k] == among[k + 1]);
        }
        lemma_no_match(g, rest, san);
    }
}

/// In a forest the line of a root is its notation alone, and a node whose
/// line is one move long is a root.
proof fn lemma_root_line(g: MoveGraph, n: int)
    requires
        g.is_forest(),
        g.has(n),
    ensures
        g.is_root(n) <==> g.line_of(n).len() == 1,
        g.is_root(n) ==> g.line_of(n) == seq![g.labels[n]],
{
    lemma_line_ends(g, n);
    lemma_single_parent(g, n);
}

/// The first moves of a forest are the moves whose lines are one move long.
pub proof fn lemma_roots_are_short_lines(g: MoveGraph)
    requires
        g.is_forest(),
    ensures
        g.root_notations() == Set::new(|san: Seq<char>| g.lines().contains(seq![san])),
{
    let short = Set::new(|san: Seq<char>| g.lines().contains(seq![san]));
    assert forall|san: Seq<char>| g.root_notations().contains(san) <==> short.contains(san) by {
        if g.root_notations().contains(san) {
            let r = choose|r: int| g.is_root(r) && g.labels[r] == san;
            lemma_root_line(g, r);
            assert(g.has(r) && g.line_of(r) == seq![san]);
        }
        if short.contains(san) {
            let n = choose|n: int| g.has(n) && g.line_of(n) == seq![san];
            lemma_root_line(g, n);
            lemma_line_ends(g, n);
            assert(seq![san].last() == san);
            assert(g.is_root(n) && g.labels[n] == san);
        }
    }
    assert(g.root_notations() =~= short);
}

/// What a new root does to a forest.
proof fn lemma_new_root(g: MoveGraph, san: Seq<char>)
    requires
        g.is_forest(),
    ensures
        g.with_root(san).is_forest(),
        g.with_root(san).lines() == g.lines().insert(seq![san]),
        g.with_root(san).line_of(g.labels.len() as int) == seq![san],
        forall|n: int| g.has(n) ==> #[trigger] g.with_root(san).line_of(n) == g.line_of(n),
        g.with_root(san).last_match(g.with_root(san).roots(), san) == Some(g.labels.len() as int),
        g.last_match(g.roots(), san) is None ==> keeps(g, g.with_root(san)),
        g.last_match(g.roots(), san) is None && g.each_line_once() ==> g.with_root(
            san,
        ).each_line_once(),
{
    let h = g.with_root(san);
    let top = g.labels.len() as int;
    lemma_with_root(g, san);
    lemma_lines_with_root(g, san);
    assert(h.roots().last() == top);
    if g.last_match(g.roots(), san) is None {
        lemma_roots_below(g, top);
        assert forall|n: int, x: Seq<char>|
            g.has(n) && (#[trigger] g.first_match(g.children(n), x)) is Some implies h.first_match(
                h.children(n),
                x,
            ) == g.first_match(g.children(n), x) by {
            lemma_neighbors_within(g.edges, n, Direction::Outgoing, top);
            assert(h.children(n) == g.children(n));
            lemma_match_same_labels(g, h, g.children(n), x);
        }
        assert forall|x: Seq<char>| (#[trigger] g.last_match(g.roots(), x)) is Some implies h.last_match(
            h.roots(),
            x,
        ) == g.last_match(g.roots(), x) by {
            assert(h.roots().drop_last() == g.roots());
            assert(x != san);
            lemma_match_same_labels(g, h, g.roots(), x);
        }
        if g.each_line_once() {
            lemma_last_match_is_member(g, g.roots(), san);
            lemma_no_match(g, g.roots(), san);
            lemma_miss_is_new(g, None, san);
            lemma_once_with_root(g, san);
        }
    }
}

/// What a new reply does to a forest.
proof fn lemma_new_child(g: MoveGraph, parent: int, san: Seq<char>)
    requires
        g.is_forest(),
        g.has(parent),
    ensures
        g.with_child(parent, san).is_forest(),
        g.with_child(parent, san).lines() == g.lines().insert(g.line_of(parent).push(san)),
        g.with_child(parent, san).line_of(g.labels.len() as int) == g.line_of(parent).push(san),
        forall|n: int| g.has(n) ==> #[trigger] g.with_child(parent, san).line_of(n) == g.line_of(n),
        g.with_child(parent, san).first_match(g.with_child(parent, san).children(parent), san)
            == Some(g.labels.len() as int),
        g.first_match(g.children(parent), san) is None ==> keeps(g, g.with_child(parent, san)),
        g.first_match(g.children(parent), san) is None && g.each_line_once() ==> g.with_child(
            parent,
            san,
        ).each_line_once(),
{
    let h = g.with_child(parent, san);
    let top = g.labels.len() as int;
    lemma_with_child(g, parent, san);
    lemma_lines_with_child(g, parent, san);
    assert(h.children(parent).first() == top);
    if g.first_match(g.children(parent), san) is None {
        lemma_roots_below(g, top);
        assert forall|n: int, x: Seq<char>|
            g.has(n) && (#[trigger] g.first_match(g.children(n), x)) is Some implies h.first_match(
                h.children(n),
                x,
            ) == g.first_match(g.children(n), x) by {
            lemma_neighbors_within(g.edges, n, Direction::Outgoing, top);
            lemma_match_same_labels(g, h, g.children(n), x);
            if n == parent {
                assert(h.children(n).drop_first() == g.children(n));
                assert(x != san);
            }
        }
        assert forall|x: Seq<char>| (#[trigger] g.last_match(g.roots(), x)) is Some implies h.last_match(
            h.roots(),
            x,
        ) == g.last_match(g.roots(), x) by {
            lemma_match_same_labels(g, h, g.roots(), x);
        }
        if g.each_line_once() {
            lemma_miss_is_new(g, Some(parent), san);
            lemma_once_with_child(g, parent, san);
        }
    }
}

/// One token read into a forest: the forest stays one, the cursor keeps to
/// the shape, and a move adds the line that the shape names, nothing else.
/// But for a root unseen the new graph keeps what was settled, has the token
/// settled too, and has no line twice that was not there twice before.
proof fn lemma_token(g: MoveGraph, c: Cursor, shape: Shape, t: Token)
    requires
        g.is_forest(),
        c.within(g),
        shaped(g, c, shape),
    ensures
        after_token(g, c, t).0.is_forest(),
        after_token(g, c, t).1.within(after_token(g, c, t).0),
        shaped(after_token(g, c, t).0, after_token(g, c, t).1, shape.after(t)),
        after_token(g, c, t).0.lines() == (match t {
            Token::San(san) => g.lines().insert(shape.line_with(san)),
            _ => g.lines(),
        }),
        !shape.makes_unseen_root(t) ==> keeps(g, after_token(g, c, t).0) && after_token(
            after_token(g, c, t).0,
            c,
            t,
        ) == after_token(g, c, t),
        !shape.makes_unseen_root(t) && g.each_line_once() ==> after_token(
            g,
            c,
            t,
        ).0.each_line_once(),
{
    let (h, d) = after_token(g, c, t);
    let s2 = shape.after(t);
    let top = g.labels.len() as int;
    match t {
        Token::San(san) => {
            lemma_new_root(g, san);
            if c.first {
                lemma_last_match_is_member(g, g.roots(), san);
                lemma_roots_below(g, top);
                if g.last_match(g.roots(), san) is Some {
                    let r = g.last_match(g.roots(), san)->0;
                    lemma_root_line(g, r);
                    assert(g.lines().contains(seq![san]));
                    assert(g.lines().insert(seq![san]) =~= g.lines());
                    lemma_moved(g, g, c, shape, r, seq![san]);
                } else {
                    lemma_moved(g, h, c, shape, top, seq![san]);
                }
            } else if c.stack.len() > 0 && c.stack.last() is Some {
                let at = c.stack.last()->0;
                assert(c.stack[c.stack.len() - 1] == Some(at));
                assert(shape.lines.last() == Some(g.line_of(at)));
                let line = g.line_of(at).push(san);
                lemma_new_child(g, at, san);
                lemma_first_match_is_member(g, g.children(at), san);
                if g.first_match(g.children(at), san) is Some {
                    let reply = g.first_match(g.children(at), san)->0;
                    let k = choose|k: int| 0 <= k < g.children(at).len() && g.children(at)[k] == reply;
                    lemma_parent_of_child(g, at, k);
                    assert(g.parents(reply)[0] == at);
                    assert(g.line_of(reply) == line);
                    assert(g.lines().contains(line));
                    assert(g.lines().insert(line) =~= g.lines());
                    lemma_moved(g, g, c, shape, reply, line);
                } else {
                    lemma_moved(g, h, c, shape, top, line);
                }
            } else {
                if c.stack.len() > 0 {
                    assert(c.stack[c.stack.len() - 1] is None);
                    assert(shape.lines[c.stack.len() - 1] is None);
                }
                lemma_moved(g, h, c, shape, top, seq![san]);
            }
        },
        Token::BeginVariation => {
            if c.stack.len() > 0 {
                let last = c.stack.len() - 1;
                assert(c.stack[last] == c.stack.last());
                if c.stack.last() is Some {
                    let at = c.stack.last()->0;
                    lemma_single_parent(g, at);
                    lemma_line_ends(g, at);
                    if g.parents(at).len() > 0 {
                        lemma_neighbors_within(g.edges, at, Direction::Incoming, top);
                    }
                }
                assert forall|i: int| 0 <= i < d.stack.len() implies match (
                    #[trigger] d.stack[i],
                    s2.lines[i],
                ) {
                    (Some(n), Some(line)) => g.line_of(n) == line,
                    (None, None) => true,
                    _ => false,
                } by {
                    if i < c.stack.len() {
                        assert(d.stack[i] == c.stack[i]);
                    }
                }
                assert forall|i: int| 0 <= i < d.stack.len() implies ((
                #[trigger] d.stack[i]) matches Some(n) ==> g.has(n)) by {
                    if i < c.stack.len() {
                        assert(d.stack[i] == c.stack[i]);
                    }
                }
            }
        },
        Token::EndVariation => {
            assert forall|i: int| 0 <= i < d.stack.len() implies match (
                #[trigger] d.stack[i],
                s2.lines[i],
            ) {
                (Some(n), Some(line)) => g.line_of(n) == line,
                (None, None) => true,
                _ => false,
            } by {
                assert(d.stack[i] == c.stack[i]);
            }
            assert forall|i: int| 0 <= i < d.stack.len() implies ((
            #[trigger] d.stack[i]) matches Some(n) ==> g.has(n)) by {
                assert(d.stack[i] == c.stack[i]);
            }
        },
    }
}

/// A cursor moved to the node `n` keeps to the shape moved to the line of
/// `n`, in a graph `h` that has the nodes of `g` with their lines.
proof fn lemma_moved(
    g: MoveGraph,
    h: MoveGraph,
    c: Cursor,
    shape: Shape,
    n: int,
    line: Seq<Seq<char>>,
)
    requires
        c.within(g),
        shaped(g, c, shape),
        h.has(n),
        h.line_of(n) == line,
        g.labels.len() <= h.labels.len(),
        forall|m: int| g.has(m) ==> #[trigger] h.line_of(m) == g.line_of(m),
    ensures
        c.moved_to(n).within(h),
        shaped(h, c.moved_to(n), shape.moved_to(line)),
{
    let d = c.moved_to(n);
    let s2 = shape.moved_to(line);
    assert forall|i: int| 0 <= i < d.stack.len() implies ((#[trigger] d.stack[i]) matches Some(
        m,
    ) ==> h.has(m)) by {
        if i < c.stack.len() - 1 {
            assert(d.stack[i] == c.stack[i]);
        }
    }
    assert forall|i: int| 0 <= i < d.stack.len() implies match (#[trigger] d.stack[i], s2.lines[i]) {
        (Some(m), Some(l)) => h.line_of(m) == l,
        (None, None) => true,
        _ => false,
    } by {
        if i < c.stack.len() - 1 {
            assert(d.stack[i] == c.stack[i]);
            assert(s2.lines[i] == shape.lines[i]);
        }
    }
}

/// What is kept is kept on: `keeps` carries over a graph between.
proof fn lemma_keeps_on(g: MoveGraph, h: MoveGraph, k: MoveGraph)
    requires
        keeps(g, h),
        keeps(h, k),
    ensures
        keeps(g, k),
{
    assert forall|n: int, san: Seq<char>|
        g.has(n) && (#[trigger] g.first_match(g.children(n), san)) is Some implies k.first_match(
            k.children(n),
            san,
        ) == g.first_match(g.children(n), san) by {
        assert(h.has(n));
        assert(h.first_match(h.children(n), san) == g.first_match(g.children(n), san));
    }
    assert forall|san: Seq<char>| (#[trigger] g.last_match(g.roots(), san)) is Some implies k.last_match(
        k.roots(),
        san,
    ) == g.last_match(g.roots(), san) by {
        assert(h.last_match(h.roots(), san) == g.last_match(g.roots(), san));
    }
}

/// A token that is settled in `h` is settled in every graph that keeps what
/// `h` has settled.
proof fn lemma_settled_on(h: MoveGraph, k: MoveGraph, c: Cursor, t: Token)
    requires
        keeps(h, k),
        c.within(h),
        after_token(h, c, t).0 == h,
    ensures
        after_token(k, c, t) == (k, after_token(h, c, t).1),
{
    match t {
        Token::San(san) => {
            if c.first {
                assert(h.last_match(h.roots(), san) is Some) by {
                    if h.last_match(h.roots(), san) is None {
                        assert(h.with_root(san).labels.len() == h.labels.len() + 1);
                    }
                }
            } else if c.stack.len() > 0 && c.stack.last() is Some {
                let at = c.stack.last()->0;
                assert(c.stack[c.stack.len() - 1] == Some(at));
                assert(h.first_match(h.children(at), san) is Some) by {
                    if h.first_match(h.children(at), san) is None {
                        assert(h.with_child(at, san).labels.len() == h.labels.len() + 1);
                    }
                }
            } else {
                assert(h.with_root(san).labels.len() == h.labels.len() + 1);
            }
        },
        Token::BeginVariation => {
            if c.stack.len() > 0 && c.stack.last() is Some {
                let at = c.stack.last()->0;
                assert(c.stack[c.stack.len() - 1] == Some(at));
                assert(k.parents(at) == h.parents(at));
            }
        },
        Token::EndVariation => {},
    }
}

/// A run of tokens read into a forest: the forest stays one, and its lines
/// are those it had and those that the shape names. Where no move becomes a
/// root unseen, the new graph keeps what was settled, has no line twice that
/// was not there twice before, and the same tokens read into it once more
/// change nothing and lead to the same cursor.
proof fn lemma_tokens(g: MoveGraph, c: Cursor, shape: Shape, tokens: Seq<Token>)
    requires
        g.is_forest(),
        c.within(g),
        shaped(g, c, shape),
    ensures
        after_tokens(g, c, tokens).0.is_forest(),
        after_tokens(g, c, tokens).0.lines() == g.lines().union(shape.lines_named(tokens)),
        shape.tame(tokens) ==> keeps(g, after_tokens(g, c, tokens).0) && after_tokens(
            after_tokens(g, c, tokens).0,
            c,
            tokens,
        ) == after_tokens(g, c, tokens),
        shape.tame(tokens) && g.each_line_once() ==> after_tokens(g, c, tokens).0.each_line_once(),
    decreases tokens.len(),
{
    if tokens.len() == 0 {
        assert(g.lines().union(Set::empty()) =~= g.lines());
    } else {
        let t = tokens.first();
        let rest = tokens.drop_first();
        let (h, d) = after_token(g, c, t);
        let last = after_tokens(g, c, tokens).0;
        lemma_token(g, c, shape, t);
        lemma_tokens(h, d, shape.after(t), rest);
        assert(last.lines() =~= g.lines().union(shape.lines_named(tokens)));
        if shape.tame(tokens) {
            lemma_keeps_on(g, h, last);
            lemma_settled_on(h, last, c, t);
        }
    }
}

/// Reading a game into a forest leaves a forest, whose lines are those it
/// had and those that the game names.
pub proof fn lemma_game_lines(g: MoveGraph, game: Seq<Token>)
    requires
        g.is_forest(),
    ensures
        with_game(g, game).is_forest(),
        with_game(g, game).lines() == g.lines().union(game_lines(game)),
{
    lemma_tokens(g, Cursor::start(), Shape::start(), game);
}

/// Reading games into a forest leaves a forest, whose lines are those it had
/// and those that the games name.
pub proof fn lemma_games_lines(g: MoveGraph, games: Seq<Seq<Token>>)
    requires
        g.is_forest(),
    ensures
        with_games(g, games).is_forest(),
        with_games(g, games).lines() == g.lines().union(games_lines(games)),
    decreases games.len(),
{
    if games.len() == 0 {
        assert(g.lines().union(games_lines(games)) =~= g.lines());
    } else {
        let rest = games.drop_first();
        lemma_game_lines(g, games.first());
        lemma_games_lines(with_game(g, games.first()), rest);
        assert forall|line: Seq<Seq<char>>| games_lines(games).contains(line) <==> game_lines(
            games.first(),
        ).contains(line) || games_lines(rest).contains(line) by {
            if games_lines(games).contains(line) {
                let i = choose|i: int|
                    0 <= i < games.len() && game_lines(#[trigger] games[i]).contains(line);
                if i > 0 {
                    assert(rest[i - 1] == games[i]);
                }
            }
            if games_lines(rest).contains(line) {
                let i = choose|i: int|
                    0 <= i < rest.len() && game_lines(#[trigger] rest[i]).contains(line);
                assert(rest[i] == games[i + 1]);
            }
            if game_lines(games.first()).contains(line) {
                assert(games[0] == games.first());
            }
        }
        assert(with_games(g, games).lines() =~= g.lines().union(games_lines(games)));
    }
}

/// The prepared lines do not depend on the order in which the games were
/// read: the same games in another order give the same set of lines.
pub proof fn law_lines_whatever_the_order(
    g: MoveGraph,
    games: Seq<Seq<Token>>,
    reordered: Seq<Seq<Token>>,
)
    requires
        g.is_forest(),
        games.to_multiset() == reordered.to_multiset(),
    ensures
        with_games(g, games).lines() == with_games(g, reordered).lines(),
{
    lemma_games_lines(g, games);
    lemma_games_lines(g, reordered);
    assert forall|line: Seq<Seq<char>>| games_lines(games).contains(line) <==> games_lines(
        reordered,
    ).contains(line) by {
        if games_lines(games).contains(line) {
            let i = choose|i: int|
                0 <= i < games.len() && game_lines(#[trigger] games[i]).contains(line);
            vstd::seq_lib::to_multiset_contains(games, games[i]);
            vstd::seq_lib::to_multiset_contains(reordered, games[i]);
            assert(games.contains(games[i]));
            let j = choose|j: int| 0 <= j < reordered.len() && reordered[j] == games[i];
            assert(game_lines(reordered[j]).contains(line));
        }
        if games_lines(reordered).contains(line) {
            let i = choose|i: int|
                0 <= i < reordered.len() && game_lines(#[trigger] reordered[i]).contains(line);
            vstd::seq_lib::to_multiset_contains(reordered, reordered[i]);
            vstd::seq_lib::to_multiset_contains(games, reordered[i]);
            assert(reordered.contains(reordered[i]));
            let j = choose|j: int| 0 <= j < games.len() && games[j] == reordered[i];
            assert(game_lines(games[j]).contains(line));
        }
    }
    assert(games_lines(games) =~= games_lines(reordered));
}

/// The first moves of a forest do not depend on the order in which the games
/// were read into it: the same games in another order give the same set of
/// first-move notations.
pub proof fn law_root_notations_whatever_the_order(
    g: MoveGraph,
    games: Seq<Seq<Token>>,
    reordered: Seq<Seq<Token>>,
)
    requires
        g.is_forest(),
        games.to_multiset() == reordered.to_multiset(),
    ensures
        with_games(g, games).root_notations() == with_games(g, reordered).root_notations(),
{
    law_lines_whatever_the_order(g, games, reordered);
    lemma_games_lines(g, games);
    lemma_games_lines(g, reordered);
    lemma_roots_are_short_lines(with_games(g, games));
    lemma_roots_are_short_lines(with_games(g, reordered));
}

/// A game read twice adds nothing the second time: where every move of the
/// game but the first finds a position, the graph after the second reading
/// is the graph after the first, node for node.
pub proof fn law_same_game_twice(g: MoveGraph, game: Seq<Token>)
    requires
        g.is_forest(),
        is_tame(game),
    ensures
        with_game(with_game(g, game), game) == with_game(g, game),
        with_game(with_game(g, game), game).len() == with_game(g, game).len(),
{
    lemma_tokens(g, Cursor::start(), Shape::start(), game);
}

/// A game read twice adds no line the second time, whatever the game.
pub proof fn law_same_game_twice_adds_no_line(g: MoveGraph, game: Seq<Token>)
    requires
        g.is_forest(),
    ensures
        with_game(with_game(g, game), game).lines() == with_game(g, game).lines(),
{
    lemma_game_lines(g, game);
    lemma_game_lines(with_game(g, game), game);
    assert(g.lines().union(game_lines(game)).union(game_lines(game)) =~= g.lines().union(
        game_lines(game),
    ));
}

/// A game in which every move but the first finds a position prepares no
/// line twice: where different nodes end different lines before the game is
/// read, they do so after.
pub proof fn law_tame_game_prepares_no_line_twice(g: MoveGraph, game: Seq<Token>)
    requires
        g.is_forest(),
        g.each_line_once(),
        is_tame(game),
    ensures
        with_game(g, game).each_line_once(),
{
    lemma_tokens(g, Cursor::start(), Shape::start(), game);
}

/// A line that a drill can be started from is played in the preparation
/// move by move: each of its moves, held against the graph at the position
/// that the moves before it lead to, is a move of the preparation, and the
/// position after it is the one that it leads to.
pub proof fn law_replay_stays_in_prep(g: MoveGraph, at: Option<int>, line: Seq<Seq<char>>, k: int)
    requires
        g.walk(at, line) is Some,
        0 <= k < line.len(),
    ensures
        g.walk(at, line.take(k)) is Some,
        g.step(g.walk(at, line.take(k))->0, line[k]) is Some,
        g.walk(at, line.take(k + 1)) == Some(g.step(g.walk(at, line.take(k))->0, line[k])),
    decreases k,
{
    let next = g.step(at, line.first());
    let rest = line.drop_first();
    if k == 0 {
        assert(line.take(0).len() == 0);
        assert(line.take(1).first() == line.first());
        assert(line.take(1).drop_first().len() == 0);
        assert(g.walk(at, line.take(0)) == Some(at));
        assert(g.walk(next, line.take(1).drop_first()) == Some(next));
        assert(g.walk(at, line.take(1)) == Some(next));
    } else {
        assert(next is Some);
        law_replay_stays_in_prep(g, next, rest, k - 1);
        assert(line.take(k).first() == line.first());
        assert(line.take(k).drop_first() == rest.take(k - 1));
        assert(line.take(k + 1).first() == line.first());
        assert(line.take(k + 1).drop_first() == rest.take(k));
        assert(rest[k - 1] == line[k]);
        assert(g.walk(at, line.take(k)) == g.walk(next, rest.take(k - 1)));
        assert(g.walk(at, line.take(k + 1)) == g.walk(next, rest.take(k)));
    }
}

/// A line with one more move leads where the line leads and the move leads on
/// from there.
pub proof fn lemma_walk_push(g: MoveGraph, at: Option<int>, line: Seq<Seq<char>>, san: Seq<char>)
    ensures
        g.walk(at, line.push(san)) == (match g.walk(at, line) {
            Some(position) => match g.step(position, san) {
                Some(next) => Some(Some(next)),
                None => None,
            },
            None => None,
        }),
    decreases line.len(),
{
    let longer = line.push(san);
    if line.len() == 0 {
        assert(longer.first() == san);
        assert(longer.drop_first().len() == 0);
        assert(g.walk(at, line) == Some(at));
        if g.step(at, san) is Some {
            assert(g.walk(g.step(at, san), longer.drop_first()) == Some(g.step(at, san)));
        }
    } else {
        assert(longer.first() == line.first());
        assert(longer.drop_first() == line.drop_first().push(san));
        if g.step(at, line.first()) is Some {
            lemma_walk_push(g, g.step(at, line.first()), line.drop_first(), san);
        }
    }
}

/// The line that the moves `line` end where they are played from the
/// position `at`.
pub open spec fn line_from(g: MoveGraph, at: Option<int>, line: Seq<Seq<char>>) -> Seq<Seq<char>> {
    match at {
        Some(n) => g.line_of(n) + line,
        None => line,
    }
}

/// Where moves lead in a forest, there ends the line that they make.
proof fn lemma_walk_ends_line(g: MoveGraph, at: Option<int>, line: Seq<Seq<char>>)
    requires
        g.is_forest(),
        at matches Some(p) ==> g.has(p),
        line.len() > 0,
        g.walk(at, line) is Some,
    ensures
        g.walk(at, line)->0 is Some,
        g.has(g.walk(at, line)->0->0),
        g.line_of(g.walk(at, line)->0->0) == line_from(g, at, line),
    decreases line.len(),
{
    let front = line.drop_last();
    let san = line.last();
    assert(front.push(san) == line);
    lemma_walk_push(g, at, front, san);
    let position = g.walk(at, front)->0;
    if front.len() > 0 {
        lemma_walk_ends_line(g, at, front);
    } else {
        assert(g.walk(at, front) == Some(at));
    }
    let next = g.step(position, san)->0;
    lemma_first_match_is_member(g, g.candidates(position), san);
    let k = choose|k: int|
        0 <= k < g.candidates(position).len() && g.candidates(position)[k] == next;
    match position {
        Some(p) => {
            lemma_parent_of_child(g, p, k);
            assert(g.parents(next)[0] == p);
            assert(g.line_of(next) == g.line_of(p).push(san));
            assert(line_from(g, at, front).push(san) == line_from(g, at, line));
        },
        None => {
            lemma_roots_below(g, g.labels.len() as int);
            lemma_root_line(g, next);
            assert(line == seq![san]);
        },
    }
}

/// Where no line is prepared twice, the moves that make the line of a node
/// lead to that node.
proof fn lemma_line_is_walked(g: MoveGraph, at: Option<int>, line: Seq<Seq<char>>, n: int)
    requires
        g.is_forest(),
        g.each_line_once(),
        at matches Some(p) ==> g.has(p),
        line.len() > 0,
        g.has(n),
        g.line_of(n) == line_from(g, at, line),
    ensures
        g.walk(at, line) == Some(Some(n)),
    decreases line.len(),
{
    let front = line.drop_last();
    let san = line.last();
    assert(front.push(san) == line);
    lemma_walk_push(g, at, front, san);
    lemma_line_ends(g, n);
    lemma_single_parent(g, n);
    assert(line_from(g, at, front).push(san) == line_from(g, at, line));
    assert(g.labels[n] == san);
    let position: Option<int> = if front.len() > 0 {
        // The line of `n` is longer than one move, so `n` has a parent.
        if at is Some {
            lemma_line_ends(g, at->0);
        }
        let q = g.parents(n)[0];
        assert(g.line_of(q) == line_from(g, at, front));
        lemma_line_is_walked(g, at, front, q);
        Some(q)
    } else {
        assert(g.walk(at, front) == Some(at));
        match at {
            Some(p) => {
                lemma_line_ends(g, p);
                let q = g.parents(n)[0];
                assert(g.line_of(p) + front == g.line_of(p));
                assert(g.line_of(q) == g.line_of(p));
            },
            None => {},
        }
        at
    };
    assert(g.walk(at, front) == Some(position));
    // The move is found at the position, and what is found is `n`.
    match position {
        Some(q) => {
            let e = lemma_neighbor_edge(g.edges, n, Direction::Incoming, 0);
            let k = lemma_edge_neighbor(g.edges, e, Direction::Outgoing);
            assert(g.children(q)[k] == n);
        },
        None => {
            assert(line == seq![san]);
            lemma_root_line(g, n);
            lemma_roots_below(g, g.labels.len() as int);
            assert(g.roots().contains(n));
        },
    }
    lemma_first_match_is_member(g, g.candidates(position), san);
    let found = g.first_match(g.candidates(position), san);
    assert(found is Some);
    let j = choose|j: int|
        0 <= j < g.candidates(position).len() && g.candidates(position)[j] == found->0;
    match position {
        Some(q) => {
            lemma_parent_of_child(g, q, j);
            assert(g.parents(found->0)[0] == q);
            assert(g.line_of(found->0) == g.line_of(q).push(san));
        },
        None => {
            lemma_root_line(g, found->0);
        },
    }
    assert(g.line_of(found->0) == g.line_of(n));
}

/// A drill can be started from the prepared lines and from no other: in a
/// forest that has no line twice, moves lead somewhere exactly where they
/// make a prepared line, and they lead to the node that ends it.
pub proof fn law_drill_starts_on_prepared_lines(g: MoveGraph, line: Seq<Seq<char>>)
    requires
        g.is_forest(),
        g.each_line_once(),
        line.len() > 0,
    ensures
        g.walk(None, line) is Some <==> g.lines().contains(line),
        g.walk(None, line) matches Some(Some(n)) ==> g.has(n) && g.line_of(n) == line,
{
    if g.walk(None, line) is Some {
        lemma_walk_ends_line(g, None, line);
        assert(g.lines().contains(line));
    }
    if g.lines().contains(line) {
        let n = choose|n: int| g.has(n) && g.line_of(n) == line;
        lemma_line_is_walked(g, None, line, n);
    }
}

/// In a forest no move has two parents, so a variation never meets more
/// parents than one.
pub proof fn law_forest_has_no_extra_parents(g: MoveGraph, c: Cursor)
    requires
        g.is_forest(),
    ensures
        anchor_of(g, c) != VariationAnchor::ExtraParents,
{
    if c.stack.len() > 0 && c.stack.last() is Some {
        lemma_single_parent(g, c.stack.last()->0);
    }
}

} // verus!

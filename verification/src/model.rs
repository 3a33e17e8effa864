//! The mathematics of a move graph: nodes that hold a notation, edges in the
//! order of their addition, and what follows from them.

use vstd::prelude::*;

verus! {

/// The side of a node on which an edge is looked for.
#[derive(Clone, Copy, Debug)]
pub enum Direction {
    /// Edges that leave the node.
    Outgoing,
    /// Edges that arrive at the node.
    Incoming,
}

/// The end of the edge `e` at which it is found from the side `dir`: its
/// source for an outgoing edge, its target for an incoming one.
pub open spec fn near_end(e: (int, int), dir: Direction) -> int {
    match dir {
        Direction::Outgoing => e.0,
        Direction::Incoming => e.1,
    }
}

/// The other end of the edge `e`.
pub open spec fn far_end(e: (int, int), dir: Direction) -> int {
    match dir {
        Direction::Outgoing => e.1,
        Direction::Incoming => e.0,
    }
}

/// The far ends of the edges that touch `n` on the side `dir`, the edge added
/// last first.
pub open spec fn neighbors(edges: Seq<(int, int)>, n: int, dir: Direction) -> Seq<int>
    decreases edges.len(),
{
    if edges.len() == 0 {
        Seq::empty()
    } else if near_end(edges.last(), dir) == n {
        seq![far_end(edges.last(), dir)] + neighbors(edges.drop_last(), n, dir)
    } else {
        neighbors(edges.drop_last(), n, dir)
    }
}

/// Node handles as mathematical integers.
pub open spec fn ids(handles: Seq<usize>) -> Seq<int> {
    Seq::new(handles.len(), |i: int| handles[i] as int)
}

/// An optional node handle as an optional mathematical integer.
pub open spec fn opt_id(handle: Option<usize>) -> Option<int> {
    match handle {
        Some(n) => Some(n as int),
        None => None,
    }
}

/// Optional node handles as optional mathematical integers.
pub open spec fn opt_ids(handles: Seq<Option<usize>>) -> Seq<Option<int>> {
    Seq::new(handles.len(), |i: int| opt_id(handles[i]))
}

/// The text of each string of a sequence.
pub open spec fn texts(strings: Seq<String>) -> Seq<Seq<char>> {
    Seq::new(strings.len(), |i: int| strings[i]@)
}

/// What a move graph holds: the notation of each node, and the edges in the
/// order in which they were added.
pub struct MoveGraph {
    pub labels: Seq<Seq<char>>,
    pub edges: Seq<(int, int)>,
}

impl MoveGraph {
    /// The graph without nodes.
    pub open spec fn empty() -> MoveGraph {
        MoveGraph { labels: Seq::empty(), edges: Seq::empty() }
    }

    /// The number of nodes.
    pub open spec fn len(self) -> nat {
        self.labels.len()
    }

    /// `n` is a node of the graph.
    pub open spec fn has(self, n: int) -> bool {
        0 <= n < self.labels.len()
    }

    /// Every edge joins two nodes of the graph.
    pub open spec fn wf(self) -> bool {
        forall|i: int|
            #![trigger self.edges[i]]
            0 <= i < self.edges.len() ==> self.has(self.edges[i].0) && self.has(self.edges[i].1)
    }

    /// The graph is a forest in the order of its growth: every edge leads to a
    /// node that was added after its source, and the edges stand in the order
    /// of their targets. So no node has two parents and no line returns to
    /// itself.
    pub open spec fn is_forest(self) -> bool {
        &&& self.wf()
        &&& forall|i: int|
            #![trigger self.edges[i]]
            0 <= i < self.edges.len() ==> self.edges[i].0 < self.edges[i].1
        &&& forall|i: int, j: int|
            #![trigger self.edges[i], self.edges[j]]
            0 <= i < j < self.edges.len() ==> self.edges[i].1 < self.edges[j].1
    }

    /// The replies known to `n`, the one added last first.
    pub open spec fn children(self, n: int) -> Seq<int> {
        neighbors(self.edges, n, Direction::Outgoing)
    }

    /// The moves that `n` is a reply to, the one added last first.
    pub open spec fn parents(self, n: int) -> Seq<int> {
        neighbors(self.edges, n, Direction::Incoming)
    }

    /// `n` is a first move: a node that no edge arrives at.
    pub open spec fn is_root(self, n: int) -> bool {
        self.has(n) && self.parents(n).len() == 0
    }

    /// The roots among the first `k` nodes, in the order of their indices.
    pub open spec fn roots_below(self, k: int) -> Seq<int>
        decreases k,
    {
        if k <= 0 {
            Seq::empty()
        } else if self.is_root(k - 1) {
            self.roots_below(k - 1).push(k - 1)
        } else {
            self.roots_below(k - 1)
        }
    }

    /// All roots, in the order of their indices.
    pub open spec fn roots(self) -> Seq<int> {
        self.roots_below(self.labels.len() as int)
    }

    /// The moves that can follow the position `at`: the roots before any move,
    /// the children of the last move after it.
    pub open spec fn candidates(self, at: Option<int>) -> Seq<int> {
        match at {
            Some(n) => self.children(n),
            None => self.roots(),
        }
    }

    /// The first of `among` that holds the notation `san`.
    pub open spec fn first_match(self, among: Seq<int>, san: Seq<char>) -> Option<int>
        decreases among.len(),
    {
        if among.len() == 0 {
            None
        } else if self.labels[among.first()] == san {
            Some(among.first())
        } else {
            self.first_match(among.drop_first(), san)
        }
    }

    /// The last of `among` that holds the notation `san`.
    pub open spec fn last_match(self, among: Seq<int>, san: Seq<char>) -> Option<int>
        decreases among.len(),
    {
        if among.len() == 0 {
            None
        } else if self.labels[among.last()] == san {
            Some(among.last())
        } else {
            self.last_match(among.drop_last(), san)
        }
    }

    /// Where the move `san` leads from the position `at`: to the first
    /// candidate that holds it, or out of the preparation.
    pub open spec fn step(self, at: Option<int>, san: Seq<char>) -> Option<int> {
        self.first_match(self.candidates(at), san)
    }

    /// Where the moves of `line`, played from the position `at`, lead: to a
    /// position, or out of the preparation.
    pub open spec fn walk(self, at: Option<int>, line: Seq<Seq<char>>) -> Option<Option<int>>
        decreases line.len(),
    {
        if line.len() == 0 {
            Some(at)
        } else {
            match self.step(at, line.first()) {
                Some(next) => self.walk(Some(next), line.drop_first()),
                None => None,
            }
        }
    }

    /// The line that ends with the move `n`: the notations from a first move
    /// down to it.
    pub open spec fn line_of(self, n: int) -> Seq<Seq<char>>
        decreases n,
    {
        if self.parents(n).len() > 0 && 0 <= self.parents(n)[0] < n {
            self.line_of(self.parents(n)[0]).push(self.labels[n])
        } else {
            seq![self.labels[n]]
        }
    }

    /// The line that a move `san` ends where it is played at the position
    /// `at`.
    pub open spec fn line_under(self, at: Option<int>, san: Seq<char>) -> Seq<Seq<char>> {
        match at {
            Some(n) => self.line_of(n).push(san),
            None => seq![san],
        }
    }

    /// The prepared lines: for each node the line that ends with it.
    pub open spec fn lines(self) -> Set<Seq<Seq<char>>> {
        Set::new(|line: Seq<Seq<char>>| exists|n: int| self.has(n) && self.line_of(n) == line)
    }

    /// No line is prepared twice: different nodes end different lines. In a
    /// forest that is to say that no two first moves and no two replies to
    /// one move hold the same notation.
    pub open spec fn each_line_once(self) -> bool {
        forall|n: int, m: int|
            self.has(n) && self.has(m) && n != m ==> #[trigger] self.line_of(n)
                != #[trigger] self.line_of(m)
    }

    /// The graph is `old` with more nodes and edges, and each of the new
    /// edges arrives at a new node.
    pub open spec fn grown_from(self, old: MoveGraph) -> bool {
        &&& old.labels.len() <= self.labels.len()
        &&& old.edges.len() <= self.edges.len()
        &&& forall|n: int| 0 <= n < old.labels.len() ==> #[trigger] self.labels[n] == old.labels[n]
        &&& forall|i: int| 0 <= i < old.edges.len() ==> #[trigger] self.edges[i] == old.edges[i]
        &&& forall|i: int|
            old.edges.len() <= i < self.edges.len() ==> (#[trigger] self.edges[i]).1
                >= old.labels.len()
    }

    /// The notations that a game can begin with.
    pub open spec fn root_notations(self) -> Set<Seq<char>> {
        Set::new(|san: Seq<char>| exists|r: int| self.is_root(r) && self.labels[r] == san)
    }

    /// The notations of `nodes`.
    pub open spec fn notations(self, nodes: Seq<int>) -> Seq<Seq<char>> {
        Seq::new(nodes.len(), |i: int| self.labels[nodes[i]])
    }

    /// The graph can take one more node and one more edge: the indices of
    /// either are 32 bits wide, and the largest stands for "none".
    pub open spec fn has_room(self) -> bool {
        self.labels.len() < u32::MAX && self.edges.len() < u32::MAX
    }

    /// The graph with one more node that nothing leads to.
    pub open spec fn with_root(self, san: Seq<char>) -> MoveGraph {
        MoveGraph { labels: self.labels.push(san), edges: self.edges }
    }

    /// The graph with one more node, a reply to `parent`.
    pub open spec fn with_child(self, parent: int, san: Seq<char>) -> MoveGraph {
        MoveGraph {
            labels: self.labels.push(san),
            edges: self.edges.push((parent, self.labels.len() as int)),
        }
    }
}

/// An edge that does not touch `n` on the side `dir` changes no neighbour of
/// `n`; one that does puts its far end in front.
pub proof fn lemma_neighbors_push(edges: Seq<(int, int)>, e: (int, int), n: int, dir: Direction)
    ensures
        neighbors(edges.push(e), n, dir) == if near_end(e, dir) == n {
            seq![far_end(e, dir)] + neighbors(edges, n, dir)
        } else {
            neighbors(edges, n, dir)
        },
{
    assert(edges.push(e).drop_last() == edges);
    assert(edges.push(e).last() == e);
}

/// A node that no edge touches on the side `dir` has no neighbour there.
pub proof fn lemma_neighbors_none(edges: Seq<(int, int)>, n: int, dir: Direction)
    requires
        forall|i: int| #![trigger edges[i]] 0 <= i < edges.len() ==> near_end(edges[i], dir) != n,
    ensures
        neighbors(edges, n, dir).len() == 0,
    decreases edges.len(),
{
    if edges.len() > 0 {
        let older = edges.drop_last();
        assert forall|i: int| #![trigger older[i]] 0 <= i < older.len() implies near_end(
            older[i],
            dir,
        ) != n by {
            assert(older[i] == edges[i]);
        }
        lemma_neighbors_none(older, n, dir);
        assert(near_end(edges[edges.len() - 1], dir) != n);
    }
}

/// Where every edge joins nodes below `bound`, so does every neighbour lie
/// below it.
pub proof fn lemma_neighbors_within(edges: Seq<(int, int)>, n: int, dir: Direction, bound: int)
    requires
        forall|i: int|
            #![trigger edges[i]]
            0 <= i < edges.len() ==> 0 <= edges[i].0 < bound && 0 <= edges[i].1 < bound,
    ensures
        forall|k: int|
            #![trigger neighbors(edges, n, dir)[k]]
            0 <= k < neighbors(edges, n, dir).len() ==> 0 <= neighbors(edges, n, dir)[k] < bound,
    decreases edges.len(),
{
    if edges.len() > 0 {
        let older = edges.drop_last();
        assert forall|i: int| #![trigger older[i]] 0 <= i < older.len() implies 0 <= older[i].0
            < bound && 0 <= older[i].1 < bound by {
            assert(older[i] == edges[i]);
        }
        lemma_neighbors_within(older, n, dir, bound);
        assert(0 <= edges[edges.len() - 1].0 < bound);
        let all = neighbors(edges, n, dir);
        let rest = neighbors(older, n, dir);
        assert forall|k: int| 0 <= k < all.len() implies 0 <= #[trigger] all[k] < bound by {
            if all.len() != rest.len() && k > 0 {
                assert(all[k] == rest[k - 1]);
            }
        }
    }
}

/// A new root keeps the graph well formed, and a forest a forest.
pub proof fn lemma_with_root(g: MoveGraph, san: Seq<char>)
    requires
        g.wf(),
    ensures
        g.with_root(san).wf(),
        g.is_forest() ==> g.with_root(san).is_forest(),
        forall|n: int, dir: Direction|
            neighbors(g.with_root(san).edges, n, dir) == neighbors(g.edges, n, dir),
        g.with_root(san).is_root(g.labels.len() as int),
        g.with_root(san).roots() == g.roots().push(g.labels.len() as int),
{
    let h = g.with_root(san);
    let top = g.labels.len() as int;
    assert forall|i: int| #![trigger g.edges[i]] 0 <= i < g.edges.len() implies near_end(
        g.edges[i],
        Direction::Incoming,
    ) != top by {}
    lemma_neighbors_none(g.edges, top, Direction::Incoming);
    lemma_roots_below_same(g, h, top);
}

/// Two graphs with the same edges have the same roots below any index that
/// both reach.
pub proof fn lemma_roots_below_same(g: MoveGraph, h: MoveGraph, k: int)
    requires
        g.edges == h.edges,
        k <= g.labels.len(),
        k <= h.labels.len(),
    ensures
        g.roots_below(k) == h.roots_below(k),
    decreases k,
{
    if k > 0 {
        lemma_roots_below_same(g, h, k - 1);
    }
}

/// A new reply keeps the graph well formed, and a forest a forest; it stands
/// in front of the other replies to its parent and changes nothing else.
pub proof fn lemma_with_child(g: MoveGraph, parent: int, san: Seq<char>)
    requires
        g.wf(),
        g.has(parent),
    ensures
        g.with_child(parent, san).wf(),
        g.is_forest() ==> g.with_child(parent, san).is_forest(),
        g.with_child(parent, san).children(parent) == seq![g.labels.len() as int] + g.children(
            parent,
        ),
        forall|n: int| n != parent ==> g.with_child(parent, san).children(n) == g.children(n),
        g.with_child(parent, san).parents(g.labels.len() as int) == seq![parent],
        forall|n: int|
            n != g.labels.len() ==> g.with_child(parent, san).parents(n) == g.parents(n),
        g.with_child(parent, san).roots() == g.roots(),
{
    let h = g.with_child(parent, san);
    let top = g.labels.len() as int;
    let e = (parent, top);
    assert forall|i: int| #![trigger h.edges[i]] 0 <= i < h.edges.len() implies h.has(
        h.edges[i].0,
    ) && h.has(h.edges[i].1) by {
        if i < g.edges.len() {
            assert(h.edges[i] == g.edges[i]);
        }
    }
    if g.is_forest() {
        assert forall|i: int| #![trigger h.edges[i]] 0 <= i < h.edges.len() implies h.edges[i].0
            < h.edges[i].1 by {
            if i < g.edges.len() {
                assert(h.edges[i] == g.edges[i]);
            }
        }
        assert forall|i: int, j: int|
            #![trigger h.edges[i], h.edges[j]]
            0 <= i < j < h.edges.len() implies h.edges[i].1 < h.edges[j].1 by {
            assert(h.edges[i] == g.edges[i]);
            if j < g.edges.len() {
                assert(h.edges[j] == g.edges[j]);
            }
        }
    }
    assert forall|n: int| n != parent implies h.children(n) == g.children(n) by {
        lemma_neighbors_push(g.edges, e, n, Direction::Outgoing);
    }
    assert forall|n: int| n != top implies h.parents(n) == g.parents(n) by {
        lemma_neighbors_push(g.edges, e, n, Direction::Incoming);
    }
    lemma_neighbors_push(g.edges, e, parent, Direction::Outgoing);
    lemma_neighbors_push(g.edges, e, top, Direction::Incoming);
    assert forall|i: int| #![trigger g.edges[i]] 0 <= i < g.edges.len() implies near_end(
        g.edges[i],
        Direction::Incoming,
    ) != top by {}
    lemma_neighbors_none(g.edges, top, Direction::Incoming);
    assert(h.parents(top) == seq![parent] + g.parents(top));
    assert(h.parents(top) == seq![parent]);
    lemma_roots_below_child(g, parent, san, top);
}

/// Below the new reply, the roots are those of the graph before.
proof fn lemma_roots_below_child(g: MoveGraph, parent: int, san: Seq<char>, k: int)
    requires
        k <= g.labels.len(),
    ensures
        g.with_child(parent, san).roots_below(k) == g.roots_below(k),
        k == g.labels.len() ==> g.with_child(parent, san).roots_below(k + 1) == g.roots_below(k),
    decreases k,
{
    let h = g.with_child(parent, san);
    let top = g.labels.len() as int;
    if k > 0 {
        lemma_roots_below_child(g, parent, san, k - 1);
        lemma_neighbors_push(g.edges, (parent, top), k - 1, Direction::Incoming);
    }
    if k == top {
        lemma_neighbors_push(g.edges, (parent, top), top, Direction::Incoming);
        assert(h.parents(top) == seq![parent] + g.parents(top));
        assert(h.parents(top).len() > 0);
        assert(!h.is_root(top));
        assert(h.roots_below(top + 1) == h.roots_below(top));
    }
}

/// A match is one of the nodes it was looked for among, and holds the
/// notation.
pub proof fn lemma_first_match_is_member(g: MoveGraph, among: Seq<int>, san: Seq<char>)
    ensures
        g.first_match(among, san) matches Some(n) ==> among.contains(n) && g.labels[n] == san,
        g.first_match(among, san) is None ==> forall|k: int|
            0 <= k < among.len() ==> g.labels[#[trigger] among[k]] != san,
    decreases among.len(),
{
    if among.len() > 0 {
        if g.labels[among.first()] == san {
            assert(among[0] == among.first());
        } else {
            lemma_first_match_is_member(g, among.drop_first(), san);
            let rest = among.drop_first();
            if g.first_match(rest, san) is Some {
                let n = g.first_match(rest, san)->0;
                let k = choose|k: int| 0 <= k < rest.len() && rest[k] == n;
                assert(among[k + 1] == n);
            } else {
                assert forall|k: int| 0 <= k < among.len() implies g.labels[#[trigger] among[k]]
                    != san by {
                    if k > 0 {
                        assert(rest[k - 1] == among[k]);
                    }
                }
            }
        }
    }
}

/// The last match is one of the nodes it was looked for among, and holds the
/// notation.
pub proof fn lemma_last_match_is_member(g: MoveGraph, among: Seq<int>, san: Seq<char>)
    ensures
        g.last_match(among, san) matches Some(n) ==> among.contains(n) && g.labels[n] == san,
        g.last_match(among, san) is None ==> forall|k: int|
            0 <= k < among.len() ==> g.labels[#[trigger] among[k]] != san,
    decreases among.len(),
{
    if among.len() > 0 {
        if g.labels[among.last()] == san {
            assert(among[among.len() - 1] == among.last());
        } else {
            lemma_last_match_is_member(g, among.drop_last(), san);
            let rest = among.drop_last();
            if g.last_match(rest, san) is Some {
                let n = g.last_match(rest, san)->0;
                let k = choose|k: int| 0 <= k < rest.len() && rest[k] == n;
                assert(among[k] == n);
            } else {
                assert forall|k: int| 0 <= k < among.len() implies g.labels[#[trigger] among[k]]
                    != san by {
                    if k < among.len() - 1 {
                        assert(rest[k] == among[k]);
                    }
                }
            }
        }
    }
}

/// The edge that gives `n` its neighbour number `k` on the side `dir`.
pub proof fn lemma_neighbor_edge(edges: Seq<(int, int)>, n: int, dir: Direction, k: int) -> (i: int)
    requires
        0 <= k < neighbors(edges, n, dir).len(),
    ensures
        0 <= i < edges.len(),
        near_end(edges[i], dir) == n,
        far_end(edges[i], dir) == neighbors(edges, n, dir)[k],
    decreases edges.len(),
{
    let older = edges.drop_last();
    if near_end(edges.last(), dir) == n {
        if k == 0 {
            edges.len() - 1
        } else {
            assert(neighbors(edges, n, dir)[k] == neighbors(older, n, dir)[k - 1]);
            let i = lemma_neighbor_edge(older, n, dir, k - 1);
            assert(older[i] == edges[i]);
            i
        }
    } else {
        let i = lemma_neighbor_edge(older, n, dir, k);
        assert(older[i] == edges[i]);
        i
    }
}

/// Where the targets of the edges grow with the edges, a node that an edge
/// from `p` arrives at has `p` for its only parent.
pub proof fn lemma_only_parent(edges: Seq<(int, int)>, i: int)
    requires
        0 <= i < edges.len(),
        forall|a: int, b: int|
            #![trigger edges[a], edges[b]]
            0 <= a < b < edges.len() ==> edges[a].1 < edges[b].1,
    ensures
        neighbors(edges, edges[i].1, Direction::Incoming) == seq![edges[i].0],
    decreases edges.len(),
{
    let older = edges.drop_last();
    let n = edges[i].1;
    assert forall|a: int, b: int|
        #![trigger older[a], older[b]]
        0 <= a < b < older.len() implies older[a].1 < older[b].1 by {
        assert(older[a] == edges[a] && older[b] == edges[b]);
    }
    if i == edges.len() - 1 {
        assert forall|a: int| #![trigger older[a]] 0 <= a < older.len() implies near_end(
            older[a],
            Direction::Incoming,
        ) != n by {
            assert(older[a] == edges[a]);
            assert(edges[a].1 < edges[i].1);
        }
        lemma_neighbors_none(older, n, Direction::Incoming);
        assert(seq![edges[i].0] + Seq::<int>::empty() == seq![edges[i].0]);
    } else {
        assert(edges[i].1 < edges[edges.len() - 1].1);
        assert(older[i] == edges[i]);
        lemma_only_parent(older, i);
    }
}

/// In a forest a node has at most one parent, which is a node that was added
/// before it.
pub proof fn lemma_single_parent(g: MoveGraph, n: int)
    requires
        g.is_forest(),
    ensures
        g.parents(n).len() <= 1,
        g.parents(n).len() == 1 ==> 0 <= g.parents(n)[0] < n && g.has(n),
{
    if g.parents(n).len() > 0 {
        let i = lemma_neighbor_edge(g.edges, n, Direction::Incoming, 0);
        lemma_only_parent(g.edges, i);
    }
}

/// In a forest a reply to `p` has `p` for its only parent.
pub proof fn lemma_parent_of_child(g: MoveGraph, p: int, k: int)
    requires
        g.is_forest(),
        0 <= k < g.children(p).len(),
    ensures
        g.parents(g.children(p)[k]) == seq![p],
        g.has(g.children(p)[k]),
        p < g.children(p)[k],
{
    let i = lemma_neighbor_edge(g.edges, p, Direction::Outgoing, k);
    lemma_only_parent(g.edges, i);
}

/// The roots below an index are the nodes below it that nothing leads to.
pub proof fn lemma_roots_below(g: MoveGraph, k: int)
    requires
        k <= g.labels.len(),
    ensures
        forall|j: int|
            0 <= j < g.roots_below(k).len() ==> g.is_root(#[trigger] g.roots_below(k)[j])
                && g.roots_below(k)[j] < k,
        forall|n: int| 0 <= n < k && g.is_root(n) ==> g.roots_below(k).contains(n),
    decreases k,
{
    if k > 0 {
        lemma_roots_below(g, k - 1);
        let before = g.roots_below(k - 1);
        let now = g.roots_below(k);
        assert forall|n: int| 0 <= n < k && g.is_root(n) implies now.contains(n) by {
            if n < k - 1 {
                let j = choose|j: int| 0 <= j < before.len() && before[j] == n;
                assert(now[j] == n);
            } else {
                assert(now[now.len() - 1] == n);
            }
        }
    }
}

/// A match among nodes depends on the notations of those nodes alone.
pub proof fn lemma_match_same_labels(g: MoveGraph, h: MoveGraph, among: Seq<int>, san: Seq<char>)
    requires
        forall|k: int| 0 <= k < among.len() ==> g.labels[#[trigger] among[k]] == h.labels[among[k]],
    ensures
        g.first_match(among, san) == h.first_match(among, san),
        g.last_match(among, san) == h.last_match(among, san),
    decreases among.len(),
{
    if among.len() > 0 {
        assert(among.first() == among[0]);
        assert(among.last() == among[among.len() - 1]);
        let tail = among.drop_first();
        let front = among.drop_last();
        assert forall|k: int| 0 <= k < tail.len() implies g.labels[#[trigger] tail[k]]
            == h.labels[tail[k]] by {
            assert(tail[k] == among[k + 1]);
        }
        assert forall|k: int| 0 <= k < front.len() implies g.labels[#[trigger] front[k]]
            == h.labels[front[k]] by {
            assert(front[k] == among[k]);
        }
        lemma_match_same_labels(g, h, tail, san);
        lemma_match_same_labels(g, h, front, san);
    }
}

/// The line of a node is the same in two graphs that give the same parents
/// and notations to every node up to it.
pub proof fn lemma_line_same(g: MoveGraph, h: MoveGraph, n: int)
    requires
        forall|m: int| m <= n ==> #[trigger] g.parents(m) == h.parents(m),
        forall|m: int| 0 <= m <= n ==> #[trigger] g.labels[m] == h.labels[m],
        0 <= n,
    ensures
        g.line_of(n) == h.line_of(n),
    decreases n,
{
    if g.parents(n).len() > 0 && 0 <= g.parents(n)[0] < n {
        lemma_line_same(g, h, g.parents(n)[0]);
    }
}

/// What a new root does to the lines of a forest: it adds the line of one
/// move, and leaves every node its line.
pub proof fn lemma_lines_with_root(g: MoveGraph, san: Seq<char>)
    requires
        g.is_forest(),
    ensures
        g.with_root(san).is_forest(),
        g.with_root(san).grown_from(g),
        g.with_root(san).line_of(g.labels.len() as int) == seq![san],
        forall|n: int| g.has(n) ==> #[trigger] g.with_root(san).line_of(n) == g.line_of(n),
        g.with_root(san).lines() == g.lines().insert(seq![san]),
{
    let h = g.with_root(san);
    let top = g.labels.len() as int;
    lemma_with_root(g, san);
    assert(h.parents(top) == g.parents(top));
    assert forall|n: int| g.has(n) implies #[trigger] h.line_of(n) == g.line_of(n) by {
        lemma_line_same(h, g, n);
    }
    assert forall|line: Seq<Seq<char>>| h.lines().contains(line) <==> g.lines().insert(
        seq![san],
    ).contains(line) by {
        if h.lines().contains(line) {
            let n = choose|n: int| h.has(n) && h.line_of(n) == line;
            if n != top {
                assert(g.has(n) && g.line_of(n) == line);
            }
        }
        if g.lines().contains(line) {
            let n = choose|n: int| g.has(n) && g.line_of(n) == line;
            assert(h.has(n) && h.line_of(n) == line);
        }
        if line == seq![san] {
            assert(h.has(top) && h.line_of(top) == line);
        }
    }
    assert(h.lines() =~= g.lines().insert(seq![san]));
}

/// What a new reply does to the lines of a forest: it adds the line of its
/// parent with one more move, and leaves every node its line.
pub proof fn lemma_lines_with_child(g: MoveGraph, parent: int, san: Seq<char>)
    requires
        g.is_forest(),
        g.has(parent),
    ensures
        g.with_child(parent, san).is_forest(),
        g.with_child(parent, san).grown_from(g),
        g.with_child(parent, san).line_of(g.labels.len() as int) == g.line_of(parent).push(san),
        forall|n: int| g.has(n) ==> #[trigger] g.with_child(parent, san).line_of(n) == g.line_of(n),
        g.with_child(parent, san).lines() == g.lines().insert(g.line_of(parent).push(san)),
{
    let h = g.with_child(parent, san);
    let top = g.labels.len() as int;
    let new_line = g.line_of(parent).push(san);
    lemma_with_child(g, parent, san);
    assert forall|n: int| g.has(n) implies #[trigger] h.line_of(n) == g.line_of(n) by {
        lemma_line_same(h, g, n);
    }
    assert(h.parents(top)[0] == parent);
    assert(h.line_of(top) == h.line_of(parent).push(san));
    assert forall|line: Seq<Seq<char>>| h.lines().contains(line) <==> g.lines().insert(
        new_line,
    ).contains(line) by {
        if h.lines().contains(line) {
            let n = choose|n: int| h.has(n) && h.line_of(n) == line;
            if n != top {
                assert(g.has(n) && g.line_of(n) == line);
            }
        }
        if g.lines().contains(line) {
            let n = choose|n: int| g.has(n) && g.line_of(n) == line;
            assert(h.has(n) && h.line_of(n) == line);
        }
        if line == new_line {
            assert(h.has(top) && h.line_of(top) == line);
        }
    }
    assert(h.lines() =~= g.lines().insert(new_line));
}

/// Growth upon growth is growth.
pub proof fn lemma_grown_on(a: MoveGraph, b: MoveGraph, c: MoveGraph)
    requires
        b.grown_from(a),
        c.grown_from(b),
    ensures
        c.grown_from(a),
{
    assert forall|n: int| 0 <= n < a.labels.len() implies #[trigger] c.labels[n] == a.labels[n] by {
        assert(b.labels[n] == a.labels[n]);
    }
    assert forall|i: int| 0 <= i < a.edges.len() implies #[trigger] c.edges[i] == a.edges[i] by {
        assert(b.edges[i] == a.edges[i]);
    }
    assert forall|i: int| a.edges.len() <= i < c.edges.len() implies (#[trigger] c.edges[i]).1
        >= a.labels.len() by {
        if i < b.edges.len() {
            assert(c.edges[i] == b.edges[i]);
        }
    }
}

/// A forest has fewer edges than nodes, or neither.
pub proof fn lemma_forest_edges(g: MoveGraph)
    requires
        g.is_forest(),
    ensures
        g.edges.len() <= g.labels.len(),
        g.labels.len() > 0 ==> g.edges.len() < g.labels.len(),
{
    if g.edges.len() > 0 {
        lemma_target_grows(g.edges, g.edges.len() - 1);
        assert(g.has(g.edges[g.edges.len() - 1].1));
    }
}

/// Where every edge leads upwards and the targets grow with the edges, the
/// target of an edge lies above the number of the edges before it.
proof fn lemma_target_grows(edges: Seq<(int, int)>, i: int)
    requires
        0 <= i < edges.len(),
        forall|a: int| #![trigger edges[a]] 0 <= a < edges.len() ==> 0 <= edges[a].0 < edges[a].1,
        forall|a: int, b: int|
            #![trigger edges[a], edges[b]]
            0 <= a < b < edges.len() ==> edges[a].1 < edges[b].1,
    ensures
        edges[i].1 > i,
    decreases i,
{
    if i > 0 {
        lemma_target_grows(edges, i - 1);
        assert(edges[i - 1].1 < edges[i].1);
    }
}

/// The far end of an edge is among the neighbours of its near end.
pub proof fn lemma_edge_neighbor(edges: Seq<(int, int)>, i: int, dir: Direction) -> (k: int)
    requires
        0 <= i < edges.len(),
    ensures
        0 <= k < neighbors(edges, near_end(edges[i], dir), dir).len(),
        neighbors(edges, near_end(edges[i], dir), dir)[k] == far_end(edges[i], dir),
    decreases edges.len(),
{
    let older = edges.drop_last();
    let n = near_end(edges[i], dir);
    if i == edges.len() - 1 {
        0
    } else {
        assert(older[i] == edges[i]);
        let k = lemma_edge_neighbor(older, i, dir);
        if near_end(edges.last(), dir) == n {
            assert(neighbors(edges, n, dir)[k + 1] == neighbors(older, n, dir)[k]);
            k + 1
        } else {
            k
        }
    }
}

/// Distinct numbers below `n` and not below zero are at most `n`.
pub proof fn lemma_pigeonhole(s: Seq<int>, n: int)
    requires
        0 <= n,
        s.no_duplicates(),
        forall|i: int| 0 <= i < s.len() ==> 0 <= #[trigger] s[i] < n,
    ensures
        s.len() <= n,
    decreases n,
{
    if s.len() > 0 {
        if n == 0 {
            assert(0 <= s[0] < n);
        } else if exists|j: int| 0 <= j < s.len() && s[j] == n - 1 {
            let j = choose|j: int| 0 <= j < s.len() && s[j] == n - 1;
            let rest = s.remove(j);
            assert forall|i: int| 0 <= i < rest.len() implies 0 <= #[trigger] rest[i] < n - 1 by {
                if i < j {
                    assert(rest[i] == s[i]);
                } else {
                    assert(rest[i] == s[i + 1]);
                }
            }
            assert forall|a: int, b: int| 0 <= a < rest.len() && 0 <= b < rest.len() && a
                != b implies rest[a] != rest[b] by {
                let a2 = if a < j { a } else { a + 1 };
                let b2 = if b < j { b } else { b + 1 };
                assert(rest[a] == s[a2] && rest[b] == s[b2]);
            }
            lemma_pigeonhole(rest, n - 1);
            assert(rest.len() == s.len() - 1);
        } else {
            assert forall|i: int| 0 <= i < s.len() implies 0 <= #[trigger] s[i] < n - 1 by {
                assert(s[i] != n - 1);
            }
            lemma_pigeonhole(s, n - 1);
        }
    }
}

/// A line ends with the notation of its node, and has more than one move
/// where the node has a parent among the nodes before it.
pub proof fn lemma_line_ends(g: MoveGraph, n: int)
    ensures
        g.line_of(n).len() >= 1,
        g.line_of(n).last() == g.labels[n],
        g.parents(n).len() > 0 && 0 <= g.parents(n)[0] < n ==> g.line_of(n).len() >= 2
            && g.line_of(n).drop_last() == g.line_of(g.parents(n)[0]),
        !(g.parents(n).len() > 0 && 0 <= g.parents(n)[0] < n) ==> g.line_of(n).len() == 1,
    decreases n,
{
    if g.parents(n).len() > 0 && 0 <= g.parents(n)[0] < n {
        let p = g.parents(n)[0];
        lemma_line_ends(g, p);
        assert(g.line_of(p).push(g.labels[n]).drop_last() == g.line_of(p));
    }
}

/// Where no line is prepared twice, a move that is not found at a position
/// would end a line that is not prepared yet.
pub proof fn lemma_miss_is_new(g: MoveGraph, at: Option<int>, san: Seq<char>)
    requires
        g.is_forest(),
        g.each_line_once(),
        at matches Some(p) ==> g.has(p),
        g.first_match(g.candidates(at), san) is None,
    ensures
        !g.lines().contains(g.line_under(at, san)),
{
    let line = g.line_under(at, san);
    if g.lines().contains(line) {
        let m = choose|m: int| g.has(m) && g.line_of(m) == line;
        lemma_line_ends(g, m);
        lemma_single_parent(g, m);
        lemma_first_match_is_member(g, g.candidates(at), san);
        match at {
            Some(p) => {
                lemma_line_ends(g, p);
                assert(line.len() >= 2);
                assert(line.last() == san);
                assert(g.labels[m] == san);
                let q = g.parents(m)[0];
                assert(line.drop_last() == g.line_of(p));
                assert(g.line_of(q) == g.line_of(p));
                assert(q == p);
                let e = lemma_neighbor_edge(g.edges, m, Direction::Incoming, 0);
                let k = lemma_edge_neighbor(g.edges, e, Direction::Outgoing);
                assert(g.labels[g.children(p)[k]] == san);
            },
            None => {
                assert(line.len() == 1);
                assert(line.last() == san);
                assert(g.labels[m] == san);
                assert(g.is_root(m));
                lemma_roots_below(g, g.labels.len() as int);
                assert(g.roots().contains(m));
                let k = choose|k: int| 0 <= k < g.roots().len() && g.roots()[k] == m;
                assert(g.labels[g.roots()[k]] == san);
            },
        }
    }
}

/// A new root whose line is not prepared yet leaves every line prepared
/// once.
pub proof fn lemma_once_with_root(g: MoveGraph, san: Seq<char>)
    requires
        g.is_forest(),
        g.each_line_once(),
        !g.lines().contains(seq![san]),
    ensures
        g.with_root(san).each_line_once(),
{
    let h = g.with_root(san);
    lemma_lines_with_root(g, san);
    assert forall|n: int, m: int| h.has(n) && h.has(m) && n != m implies #[trigger] h.line_of(n)
        != #[trigger] h.line_of(m) by {
        if g.has(n) && g.has(m) {
            assert(g.line_of(n) != g.line_of(m));
        } else if g.has(n) {
            assert(g.lines().contains(g.line_of(n)));
        } else {
            assert(g.lines().contains(g.line_of(m)));
        }
    }
}

/// A new reply whose line is not prepared yet leaves every line prepared
/// once.
pub proof fn lemma_once_with_child(g: MoveGraph, parent: int, san: Seq<char>)
    requires
        g.is_forest(),
        g.has(parent),
        g.each_line_once(),
        !g.lines().contains(g.line_of(parent).push(san)),
    ensures
        g.with_child(parent, san).each_line_once(),
{
    let h = g.with_child(parent, san);
    lemma_lines_with_child(g, parent, san);
    assert forall|n: int, m: int| h.has(n) && h.has(m) && n != m implies #[trigger] h.line_of(n)
        != #[trigger] h.line_of(m) by {
        if g.has(n) && g.has(m) {
            assert(g.line_of(n) != g.line_of(m));
        } else if g.has(n) {
            assert(g.lines().contains(g.line_of(n)));
        } else {
            assert(g.lines().contains(g.line_of(m)));
        }
    }
}

} // verus!

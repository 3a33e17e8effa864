//! The graph merger: folds the prepared lines of several sources into one
//! graph, so that a line that two sources share stands there once.

use vstd::prelude::*;

use crate::graph::OpeningGraph;
use crate::model::ids;
use crate::model::lemma_edge_neighbor;
use crate::model::lemma_first_match_is_member;
use crate::model::lemma_forest_edges;
use crate::model::lemma_grown_on;
use crate::model::lemma_lines_with_child;
use crate::model::lemma_lines_with_root;
use crate::model::lemma_miss_is_new;
use crate::model::lemma_once_with_child;
use crate::model::lemma_once_with_root;
use crate::model::lemma_neighbor_edge;
use crate::model::lemma_neighbors_within;
use crate::model::lemma_parent_of_child;
use crate::model::lemma_pigeonhole;
use crate::model::lemma_roots_below;
use crate::model::lemma_single_parent;
use crate::model::opt_id;
use crate::model::Direction;
use crate::model::MoveGraph;

verus! {

/// The lines of the nodes of `source` that have an image.
pub open spec fn seen_lines(source: MoveGraph, image: Seq<Option<usize>>) -> Set<Seq<Seq<char>>> {
    Set::new(
        |line: Seq<Seq<char>>|
            exists|v: int| source.has(v) && (#[trigger] image[v]) is Some && source.line_of(v) == line,
    )
}

/// What holds while `source` is folded into a graph that was `start` and is
/// `seed` now. `image` gives the node of `seed` that stands for a node of
/// `source`, `queue` the nodes of `source` that have an image, in the order
/// in which they got it; the replies to the first `done` of them have their
/// images too.
pub open spec fn folding(
    start: MoveGraph,
    seed: MoveGraph,
    source: MoveGraph,
    image: Seq<Option<usize>>,
    queue: Seq<usize>,
    done: int,
) -> bool {
    &&& seed.is_forest()
    &&& seed.grown_from(start)
    &&& start.each_line_once() ==> seed.each_line_once()
    &&& seed.labels.len() <= start.labels.len() + queue.len()
    &&& image.len() == source.labels.len()
    &&& 0 <= done <= queue.len()
    &&& ids(queue).no_duplicates()
    &&& forall|i: int|
        0 <= i < queue.len() ==> source.has(#[trigger] queue[i] as int) && image[queue[i] as int] is Some
    &&& forall|v: int|
        source.has(v) && (#[trigger] image[v]) is Some ==> exists|i: int|
            0 <= i < queue.len() && #[trigger] queue[i] == v
    &&& forall|v: int|
        source.has(v) ==> ((#[trigger] image[v]) matches Some(m) ==> seed.has(m as int)
            && seed.line_of(m as int) == source.line_of(v))
    &&& seed.lines() == start.lines().union(seen_lines(source, image))
    &&& forall|i: int, k: int|
        0 <= i < done && 0 <= k < source.children(queue[i] as int).len() ==> image[
        #[trigger] source.children(queue[i] as int)[k]] is Some
}

/// The number of nodes of all of `graphs`.
pub open spec fn total_nodes(graphs: Seq<MoveGraph>) -> nat
    decreases graphs.len(),
{
    if graphs.len() == 0 {
        0
    } else {
        total_nodes(graphs.drop_last()) + graphs.last().labels.len()
    }
}

/// The lines of all of `graphs`.
pub open spec fn all_lines(graphs: Seq<MoveGraph>) -> Set<Seq<Seq<char>>> {
    Set::new(
        |line: Seq<Seq<char>>|
            exists|i: int| 0 <= i < graphs.len() && (#[trigger] graphs[i]).lines().contains(line),
    )
}

/// What the graphs of `sources` hold.
pub open spec fn graphs_of(sources: Seq<(String, OpeningGraph)>) -> Seq<MoveGraph> {
    Seq::new(sources.len(), |i: int| sources[i].1@)
}

/// Finds the move `san` at the position `at` of `seed`, or adds it there, and
/// gives its node.
fn place(seed: &mut OpeningGraph, at: Option<usize>, san: &String) -> (m: usize)
    requires
        old(seed)@.is_forest(),
        old(seed)@.labels.len() < u32::MAX,
        at matches Some(p) ==> old(seed)@.has(p as int),
    ensures
        final(seed)@.is_forest(),
        final(seed)@.grown_from(old(seed)@),
        final(seed)@.labels.len() <= old(seed)@.labels.len() + 1,
        final(seed)@.has(m as int),
        final(seed)@.line_of(m as int) == old(seed)@.line_under(opt_id(at), san@),
        forall|n: int|
            old(seed)@.has(n) ==> #[trigger] final(seed)@.line_of(n) == old(seed)@.line_of(n),
        final(seed)@.lines() == old(seed)@.lines().insert(
            old(seed)@.line_under(opt_id(at), san@),
        ),
        old(seed)@.each_line_once() ==> final(seed)@.each_line_once(),
{
    let ghost g = seed@;
    let ghost line = g.line_under(opt_id(at), san@);
    proof {
        lemma_forest_edges(g);
        lemma_lines_with_root(g, san@);
    }
    let among = seed.candidates(at);
    let found = seed.find_first(&among, san);
    proof {
        lemma_first_match_is_member(g, ids(among@), san@);
        if found is Some {
            let m = found->0 as int;
            let k = choose|k: int| 0 <= k < ids(among@).len() && ids(among@)[k] == m;
            match at {
                Some(p) => {
                    lemma_parent_of_child(g, p as int, k);
                    assert(g.parents(m)[0] == p as int);
                },
                None => {
                    lemma_roots_below(g, g.labels.len() as int);
                },
            }
            assert(g.line_of(m) == line);
            assert(g.lines().contains(line));
            assert(g.lines().insert(line) =~= g.lines());
        } else if g.each_line_once() {
            lemma_miss_is_new(g, opt_id(at), san@);
        }
    }
    match found {
        Some(m) => m,
        None => match at {
            Some(p) => {
                proof {
                    lemma_lines_with_child(g, p as int, san@);
                    if g.each_line_once() {
                        lemma_once_with_child(g, p as int, san@);
                    }
                }
                seed.add_child(p, san.clone())
            },
            None => {
                proof {
                    if g.each_line_once() {
                        lemma_once_with_root(g, san@);
                    }
                }
                seed.add_root(san.clone())
            },
        },
    }
}

/// Gives the node `v` of `source` its image in `seed`: the move that `v`
/// holds, found or added at the position `at`.
fn visit(
    seed: &mut OpeningGraph,
    source: &OpeningGraph,
    image: &mut Vec<Option<usize>>,
    queue: &mut Vec<usize>,
    v: usize,
    at: Option<usize>,
    Ghost(start): Ghost<MoveGraph>,
    Ghost(done): Ghost<int>,
)
    requires
        folding(start, old(seed)@, source@, old(image)@, old(queue)@, done),
        source@.is_forest(),
        source@.has(v as int),
        old(image)@[v as int] is None,
        start.labels.len() + source@.labels.len() < u32::MAX,
        match at {
            None => source@.parents(v as int).len() == 0,
            Some(p) => source@.parents(v as int).len() > 0 && old(image)@[source@.parents(
                v as int,
            )[0]] == Some(p),
        },
    ensures
        folding(start, final(seed)@, source@, final(image)@, final(queue)@, done),
        final(queue)@ == old(queue)@.push(v),
        final(image)@.len() == old(image)@.len(),
        final(image)@[v as int] is Some,
        forall|w: int|
            0 <= w < old(image)@.len() && w != v ==> #[trigger] final(image)@[w] == old(image)@[w],
        final(seed)@.grown_from(old(seed)@),
{
    let ghost src = source@;
    let ghost g = seed@;
    let ghost old_image = image@;
    let ghost old_queue = queue@;
    proof {
        lemma_pigeonhole(ids(old_queue), src.labels.len() as int);
        lemma_single_parent(src, v as int);
        if at is Some {
            let u = src.parents(v as int)[0];
            assert(old_image[u] == at);
            assert(src.has(u));
        }
    }
    let m = place(seed, at, source.node_notation(v));
    image.set(v, Some(m));
    queue.push(v);
    proof {
        let h = seed@;
        let line = src.line_of(v as int);
        lemma_grown_on(start, g, h);
        assert(g.line_under(opt_id(at), src.labels[v as int]) == line);
        assert(ids(queue@) == ids(old_queue).push(v as int));
        assert forall|i: int, j: int|
            0 <= i < ids(queue@).len() && 0 <= j < ids(queue@).len() && i != j implies ids(
            queue@,
        )[i] != ids(queue@)[j] by {
            if i < old_queue.len() && j < old_queue.len() {
                assert(ids(old_queue)[i] != ids(old_queue)[j]);
            } else if i < old_queue.len() {
                assert(old_image[old_queue[i] as int] is Some);
            } else {
                assert(old_image[old_queue[j] as int] is Some);
            }
        }
        assert forall|i: int| 0 <= i < queue@.len() implies src.has(#[trigger] queue@[i] as int)
            && image@[queue@[i] as int] is Some by {
            if i < old_queue.len() {
                assert(queue@[i] == old_queue[i]);
                assert(old_image[old_queue[i] as int] is Some);
            }
        }
        assert forall|w: int| src.has(w) && (#[trigger] image@[w]) is Some implies exists|i: int|
            0 <= i < queue@.len() && #[trigger] queue@[i] == w by {
            if w == v {
                assert(queue@[old_queue.len() as int] == w);
            } else {
                assert(old_image[w] is Some);
                let i = choose|i: int| 0 <= i < old_queue.len() && #[trigger] old_queue[i] == w;
                assert(queue@[i] == w);
            }
        }
        assert forall|w: int| src.has(w) implies ((#[trigger] image@[w]) matches Some(n) ==> h.has(
            n as int,
        ) && h.line_of(n as int) == src.line_of(w)) by {
            if w != v && image@[w] is Some {
                assert(old_image[w] == image@[w]);
                let n = old_image[w]->0 as int;
                assert(g.has(n) && g.line_of(n) == src.line_of(w));
                assert(h.line_of(n) == g.line_of(n));
            }
        }
        assert forall|l: Seq<Seq<char>>| seen_lines(src, image@).contains(l) <==> (seen_lines(
            src,
            old_image,
        ).contains(l) || l == line) by {
            if seen_lines(src, image@).contains(l) {
                let w = choose|w: int|
                    src.has(w) && (#[trigger] image@[w]) is Some && src.line_of(w) == l;
                if w != v {
                    assert(old_image[w] is Some);
                }
            }
            if seen_lines(src, old_image).contains(l) {
                let w = choose|w: int|
                    src.has(w) && (#[trigger] old_image[w]) is Some && src.line_of(w) == l;
                assert(image@[w] is Some);
            }
            if l == line {
                assert(image@[v as int] is Some);
            }
        }
        assert(h.lines() =~= start.lines().union(seen_lines(src, image@)));
        assert forall|i: int, k: int|
            0 <= i < done && 0 <= k < src.children(queue@[i] as int).len() implies image@[
        #[trigger] src.children(queue@[i] as int)[k]] is Some by {
            assert(queue@[i] == old_queue[i]);
            let w = src.children(old_queue[i] as int)[k];
            lemma_neighbors_within(
                src.edges,
                old_queue[i] as int,
                Direction::Outgoing,
                src.labels.len() as int,
            );
            assert(old_image[w] is Some);
        }
    }
}

/// Every node of a forest has an image once every root has one and the
/// replies to every node that has one have theirs.
proof fn lemma_all_seen(
    source: MoveGraph,
    image: Seq<Option<usize>>,
    queue: Seq<usize>,
    v: int,
)
    requires
        source.is_forest(),
        source.has(v),
        image.len() == source.labels.len(),
        forall|r: int| source.is_root(r) ==> (#[trigger] image[r]) is Some,
        forall|w: int|
            source.has(w) && (#[trigger] image[w]) is Some ==> exists|i: int|
                0 <= i < queue.len() && #[trigger] queue[i] == w,
        forall|i: int, k: int|
            0 <= i < queue.len() && 0 <= k < source.children(queue[i] as int).len() ==> image[
            #[trigger] source.children(queue[i] as int)[k]] is Some,
    ensures
        image[v] is Some,
    decreases v,
{
    if source.parents(v).len() > 0 {
        lemma_single_parent(source, v);
        let p = source.parents(v)[0];
        lemma_all_seen(source, image, queue, p);
        let i = choose|i: int| 0 <= i < queue.len() && #[trigger] queue[i] == p;
        let e = lemma_neighbor_edge(source.edges, v, Direction::Incoming, 0);
        let k = lemma_edge_neighbor(source.edges, e, Direction::Outgoing);
        assert(source.children(queue[i] as int)[k] == v);
    }
}

/// Folds the lines of `source` into `seed`. Each first move of `source` is
/// looked for among the first moves of `seed`, and added where it is not
/// found; the moves below it follow level by level, each looked for among
/// the replies to the image of its parent and added where it is not found.
/// So a first move that `seed` does not have is added with all that stands
/// below it. The nodes that `seed` had keep their handles, and no line is
/// there twice after the folding that was not there twice before.
pub fn fold_into(seed: &mut OpeningGraph, source: &OpeningGraph)
    requires
        old(seed)@.is_forest(),
        source@.is_forest(),
        old(seed)@.labels.len() + source@.labels.len() < u32::MAX,
    ensures
        final(seed)@.is_forest(),
        final(seed)@.grown_from(old(seed)@),
        final(seed)@.labels.len() <= old(seed)@.labels.len() + source@.labels.len(),
        final(seed)@.lines() == old(seed)@.lines().union(source@.lines()),
        old(seed)@.each_line_once() ==> final(seed)@.each_line_once(),
{
    let ghost start = seed@;
    let ghost src = source@;
    let n = source.node_count();
    let mut image: Vec<Option<usize>> = Vec::new();
    while image.len() < n
        invariant
            image@.len() <= n,
            forall|i: int| 0 <= i < image@.len() ==> (#[trigger] image@[i]) is None,
        decreases n - image@.len(),
    {
        image.push(None);
    }
    let mut queue: Vec<usize> = Vec::new();
    let mut head: usize = 0;
    let roots = source.roots();
    let mut r: usize = 0;
    proof {
        assert(seen_lines(src, image@) =~= Set::empty());
        assert(start.lines().union(seen_lines(src, image@)) =~= start.lines());
        lemma_roots_below(src, src.labels.len() as int);
        assert forall|j: int| 0 <= j < roots@.len() implies src.is_root(#[trigger] roots@[j] as int) by {
            assert(ids(roots@)[j] == roots@[j] as int);
        }
    }
    while r < roots.len()
        invariant
            r <= roots@.len(),
            n == src.labels.len(),
            src == source@,
            src.is_forest(),
            start.labels.len() + src.labels.len() < u32::MAX,
            ids(roots@) == src.roots(),
            forall|j: int| 0 <= j < roots@.len() ==> src.is_root(#[trigger] roots@[j] as int),
            head == queue@.len(),
            folding(start, seed@, src, image@, queue@, head as int),
            forall|j: int| 0 <= j < r ==> image@[#[trigger] roots@[j] as int] is Some,
        decreases roots@.len() - r,
    {
        let root = roots[r];
        if image[root].is_none() {
            visit(seed, source, &mut image, &mut queue, root, None, Ghost(start), Ghost(head as int));
            while head < queue.len()
                invariant
                    r < roots@.len(),
                    root == roots@[r as int],
                    n == src.labels.len(),
                    src == source@,
                    src.is_forest(),
                    start.labels.len() + src.labels.len() < u32::MAX,
                    head <= queue@.len(),
                    folding(start, seed@, src, image@, queue@, head as int),
                    forall|j: int| 0 <= j <= r ==> image@[#[trigger] roots@[j] as int] is Some,
                    forall|j: int| 0 <= j < roots@.len() ==> src.has(#[trigger] roots@[j] as int),
                decreases n - head,
            {
                proof {
                    lemma_pigeonhole(ids(queue@), n as int);
                }
                let u = queue[head];
                let at = image[u];
                let kids = source.children(u);
                let mut k: usize = kids.len();
                assert(ids(kids@).len() == kids@.len());
                while k > 0
                    invariant
                        k <= kids@.len(),
                        ids(kids@) == src.children(u as int),
                        r < roots@.len(),
                        n == src.labels.len(),
                        src == source@,
                        src.is_forest(),
                        start.labels.len() + src.labels.len() < u32::MAX,
                        head < queue@.len(),
                        queue@[head as int] == u,
                        at is Some,
                        image@[u as int] == at,
                        folding(start, seed@, src, image@, queue@, head as int),
                        forall|j: int| 0 <= j <= r ==> image@[#[trigger] roots@[j] as int] is Some,
                        forall|j: int| 0 <= j < roots@.len() ==> src.has(#[trigger] roots@[j] as int),
                        forall|j: int| 0 <= j < kids@.len() ==> src.has(#[trigger] kids@[j] as int),
                        forall|j: int| k <= j < kids@.len() ==> image@[#[trigger] kids@[j] as int] is Some,
                    decreases k,
                {
                    k -= 1;
                    let v = kids[k];
                    proof {
                        assert(ids(kids@)[k as int] == v as int);
                        lemma_parent_of_child(src, u as int, k as int);
                    }
                    if image[v].is_none() {
                        visit(seed, source, &mut image, &mut queue, v, at, Ghost(start), Ghost(head as int));
                    }
                }
                proof {
                    assert forall|i: int, j: int|
                        0 <= i < head + 1 && 0 <= j < src.children(queue@[i] as int).len() implies image@[
                    #[trigger] src.children(queue@[i] as int)[j]] is Some by {
                        if i == head {
                            assert(ids(kids@)[j] == kids@[j] as int);
                        }
                    }
                }
                head += 1;
            }
        }
        r += 1;
    }
    proof {
        assert forall|v: int| src.is_root(v) implies (#[trigger] image@[v]) is Some by {
            let j = choose|j: int| 0 <= j < src.roots().len() && src.roots()[j] == v;
            assert(ids(roots@)[j] == roots@[j] as int);
        }
        assert forall|l: Seq<Seq<char>>| seen_lines(src, image@).contains(l) <==> src.lines().contains(
            l,
        ) by {
            if src.lines().contains(l) {
                let v = choose|v: int| src.has(v) && src.line_of(v) == l;
                lemma_all_seen(src, image@, queue@, v);
            }
        }
        assert(seen_lines(src, image@) =~= src.lines());
        lemma_pigeonhole(ids(queue@), n as int);
    }
}

/// The nodes of the first `k` graphs are no more than those of all.
proof fn lemma_total_nodes(graphs: Seq<MoveGraph>, k: int)
    requires
        0 <= k <= graphs.len(),
    ensures
        total_nodes(graphs.take(k)) <= total_nodes(graphs),
        k < graphs.len() ==> total_nodes(graphs.take(k + 1)) == total_nodes(graphs.take(k))
            + graphs[k].labels.len(),
    decreases graphs.len() - k,
{
    if k < graphs.len() {
        assert(graphs.take(k + 1).drop_last() == graphs.take(k));
        assert(graphs.take(k + 1).last() == graphs[k]);
        lemma_total_nodes(graphs, k + 1);
    } else {
        assert(graphs.take(k) == graphs);
    }
}

/// Folds the graphs of `sources`, each with the name of where it comes from,
/// into one: a copy of the first, with the others folded into it in turn.
/// There is no such graph where the sources together have more nodes than a
/// graph can hold.
pub fn merge(sources: &Vec<(String, OpeningGraph)>) -> (merged: Option<OpeningGraph>)
    requires
        forall|i: int| 0 <= i < sources@.len() ==> (#[trigger] sources@[i]).1@.is_forest(),
    ensures
        merged is Some <==> total_nodes(graphs_of(sources@)) < u32::MAX,
        merged matches Some(g) ==> {
            &&& g@.is_forest()
            &&& g@.lines() == all_lines(graphs_of(sources@))
            &&& sources@.len() > 0 && sources@[0].1@.each_line_once() ==> g@.each_line_once()
        },
{
    let ghost graphs = graphs_of(sources@);
    let mut total: usize = 0;
    let mut i: usize = 0;
    assert(graphs.take(0) == Seq::<MoveGraph>::empty());
    while i < sources.len()
        invariant
            i <= sources@.len(),
            graphs == graphs_of(sources@),
            total == total_nodes(graphs.take(i as int)),
            total < u32::MAX,
        decreases sources@.len() - i,
    {
        let count = sources[i].1.node_count();
        proof {
            lemma_total_nodes(graphs, i as int);
            lemma_total_nodes(graphs, i + 1);
        }
        if count >= 0xFFFF_FFFF - total {
            return None;
        }
        total = total + count;
        i += 1;
    }
    assert(graphs.take(graphs.len() as int) == graphs);
    if sources.len() == 0 {
        let seed = OpeningGraph::new();
        proof {
            assert forall|line: Seq<Seq<char>>| !(#[trigger] MoveGraph::empty().lines().contains(line)) by {}
            assert(seed@.lines() =~= all_lines(graphs));
        }
        return Some(seed);
    }
    let mut seed = sources[0].1.clone();
    let mut k: usize = 1;
    proof {
        assert(graphs.take(1).drop_last() == Seq::<MoveGraph>::empty());
        assert(graphs.take(1).last() == graphs[0]);
        assert(total_nodes(graphs.take(1)) == graphs[0].labels.len());
        assert forall|line: Seq<Seq<char>>| seed@.lines().contains(line) <==> all_lines(
            graphs.take(1),
        ).contains(line) by {
            if seed@.lines().contains(line) {
                assert(graphs.take(1)[0].lines().contains(line));
            }
        }
        assert(seed@.lines() =~= all_lines(graphs.take(1)));
    }
    while k < sources.len()
        invariant
            1 <= k <= sources@.len(),
            graphs == graphs_of(sources@),
            total_nodes(graphs) < u32::MAX,
            forall|i: int| 0 <= i < sources@.len() ==> (#[trigger] sources@[i]).1@.is_forest(),
            seed@.is_forest(),
            sources@[0].1@.each_line_once() ==> seed@.each_line_once(),
            seed@.labels.len() <= total_nodes(graphs.take(k as int)),
            seed@.lines() == all_lines(graphs.take(k as int)),
        decreases sources@.len() - k,
    {
        let ghost before = seed@;
        proof {
            lemma_total_nodes(graphs, k as int);
            lemma_total_nodes(graphs, k + 1);
            assert(sources@[k as int].1@ == graphs[k as int]);
        }
        fold_into(&mut seed, &sources[k].1);
        proof {
            let had = graphs.take(k as int);
            let have = graphs.take(k + 1);
            assert forall|line: Seq<Seq<char>>| seed@.lines().contains(line) <==> all_lines(
                have,
            ).contains(line) by {
                if all_lines(have).contains(line) {
                    let i = choose|i: int|
                        0 <= i < have.len() && (#[trigger] have[i]).lines().contains(line);
                    if i < k {
                        assert(had[i].lines().contains(line));
                    }
                }
                if all_lines(had).contains(line) {
                    let i = choose|i: int|
                        0 <= i < had.len() && (#[trigger] had[i]).lines().contains(line);
                    assert(have[i].lines().contains(line));
                }
                if graphs[k as int].lines().contains(line) {
                    assert(have[k as int].lines().contains(line));
                }
            }
            assert(seed@.lines() =~= all_lines(have));
        }
        k += 1;
    }
    assert(graphs.take(graphs.len() as int) == graphs);
    Some(seed)
}

} // verus!

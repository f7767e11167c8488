//! Breadth-first traversal: a FIFO frontier yields nodes layer by layer.

use vstd::prelude::*;

use crate::graph::Graph;
use crate::reach::{
    dist, lemma_dist_edge, lemma_dist_exists, lemma_dist_parent, lemma_dist_self, reachable,
    reachable_within,
};
use crate::visit::{
    discover, initial_state, lemma_exhausted_complete, lemma_mark_discover,
    lemma_remove_at_contains, lemma_step_inv, mark, push_unvisited, traversal_inv, visited_at,
};

verus! {

/// The layering discipline of breadth-first search: the queue is sorted by
/// distance from the start and spans at most two consecutive layers; the
/// yielded distances never decrease and never exceed the queue front's; and
/// every reachable node at most as far as the queue front is already
/// visited.
pub open spec fn layered(
    g: Graph,
    start: usize,
    vis: Seq<bool>,
    q: Seq<usize>,
    y: Seq<usize>,
) -> bool {
    &&& (forall|i: int, j: int|
        0 <= i <= j < q.len() ==> #[trigger] dist(g, start, q[i]) <= #[trigger] dist(
            g,
            start,
            q[j],
        ))
    &&& (q.len() > 0 ==> dist(g, start, q.last()) <= dist(g, start, q[0]) + 1)
    &&& (forall|i: int|
        0 <= i && i + 1 < y.len() ==> #[trigger] dist(g, start, y[i]) <= dist(g, start, y[i + 1]))
    &&& (y.len() > 0 && q.len() > 0 ==> dist(g, start, y.last()) <= dist(g, start, q[0]))
    &&& (forall|w: usize|
        q.len() > 0 && reachable(g, start, w) && #[trigger] dist(g, start, w) <= dist(
            g,
            start,
            q[0],
        ) ==> visited_at(vis, w))
}

/// A pull-based breadth-first cursor over the nodes reachable from a start
/// position.  The traversal borrows the graph and owns its frontier queue
/// and visited table; a position is marked visited when it enters the
/// queue, so each reachable node is yielded exactly once.
pub struct BfsIterator<'a> {
    pub graph: &'a Graph,
    pub queue: Vec<usize>,
    pub visited: Vec<bool>,
    pub start: Ghost<usize>,
    pub yielded: Ghost<Seq<usize>>,
}

/// One breadth-first step keeps the layering discipline: the popped front
/// sits in the nearest pending layer, and every freshly discovered node
/// sits exactly one layer further out.
proof fn lemma_step_layered(
    g: Graph,
    start: usize,
    vis: Seq<bool>,
    q: Seq<usize>,
    y: Seq<usize>,
    p: usize,
    nb: Seq<usize>,
)
    requires
        traversal_inv(g, start, vis, q, y),
        layered(g, start, vis, q, y),
        q.len() > 0,
        p == q[0],
        forall|x: usize| #[trigger] nb.contains(x) <==> g.edge(p, x),
    ensures
        layered(g, start, mark(vis, nb), q.drop_first() + discover(vis, nb), y.push(p)),
{
    let visp = mark(vis, nb);
    let d = discover(vis, nb);
    let mid = q.drop_first();
    let q2 = mid + d;
    let y2 = y.push(p);
    lemma_mark_discover(vis, nb);
    assert(q.contains(p));
    assert(visited_at(vis, p));
    assert(reachable(g, start, p));
    let d0 = dist(g, start, p);
    assert forall|x: usize| #[trigger] nb.contains(x) implies x < vis.len() by {
        assert(g.edge(p, x));
        let i = choose|i: int|
            0 <= i < g.nodes@[p as int].neighbors@.len() && g.nodes@[p as int].neighbors@[i] == x;
        assert(g.nodes@[p as int].neighbors@[i] < g.nodes@.len());
    }
    assert forall|j: int| 0 <= j < d.len() implies reachable(g, start, #[trigger] d[j]) && dist(
        g,
        start,
        d[j],
    ) == d0 + 1 by {
        let x = d[j];
        assert(d.contains(x));
        assert(nb.contains(x));
        assert(g.edge(p, x));
        lemma_dist_edge(g, start, p, x);
        assert(!visited_at(vis, x));
        if dist(g, start, x) <= d0 {
            assert(visited_at(vis, x));
        }
    }
    assert(forall|i: int| 0 <= i < mid.len() ==> #[trigger] mid[i] == q[i + 1]);
    assert forall|i: int| 0 <= i < mid.len() implies d0 <= #[trigger] dist(g, start, mid[i])
        && dist(g, start, mid[i]) <= d0 + 1 by {
        assert(dist(g, start, q[0]) <= dist(g, start, q[i + 1]));
        assert(dist(g, start, q[i + 1]) <= dist(g, start, q[q.len() - 1]));
        assert(dist(g, start, q.last()) <= dist(g, start, q[0]) + 1);
    }
    assert forall|i: int, j: int| 0 <= i <= j < q2.len() implies #[trigger] dist(g, start, q2[i])
        <= #[trigger] dist(g, start, q2[j]) by {
        if j < mid.len() {
            assert(q2[i] == q[i + 1] && q2[j] == q[j + 1]);
            assert(dist(g, start, q[i + 1]) <= dist(g, start, q[j + 1]));
        } else if i < mid.len() {
            assert(q2[i] == mid[i] && q2[j] == d[j - mid.len()]);
        } else {
            assert(q2[i] == d[i - mid.len()] && q2[j] == d[j - mid.len()]);
        }
    }
    assert(q2.len() > 0 ==> d0 <= dist(g, start, q2[0]) && dist(g, start, q2[0]) <= d0 + 1) by {
        if q2.len() > 0 {
            if mid.len() > 0 {
                assert(q2[0] == q[1]);
                assert(dist(g, start, q[0]) <= dist(g, start, q[1]));
            } else {
                assert(q2[0] == d[0]);
            }
        }
    }
    assert(q2.len() > 0 ==> dist(g, start, q2.last()) <= dist(g, start, q2[0]) + 1) by {
        if q2.len() > 0 {
            if d.len() > 0 {
                assert(q2.last() == d[d.len() - 1]);
            } else {
                assert(q2.last() == mid[mid.len() - 1]);
            }
        }
    }
    assert forall|i: int| 0 <= i && i + 1 < y2.len() implies #[trigger] dist(g, start, y2[i])
        <= dist(g, start, y2[i + 1]) by {
        if i + 1 < y.len() {
            assert(y2[i] == y[i] && y2[i + 1] == y[i + 1]);
            assert(dist(g, start, y[i]) <= dist(g, start, y[i + 1]));
        } else {
            assert(y2[i] == y[i] && y[i] == y.last());
            assert(y2[i + 1] == p);
            assert(dist(g, start, y.last()) <= d0);
        }
    }
    assert(y2.last() == p);
    assert forall|w: usize|
        q2.len() > 0 && reachable(g, start, w) && #[trigger] dist(g, start, w) <= dist(
        g,
        start,
        q2[0],
    ) implies visited_at(visp, w) by {
        let dw = dist(g, start, w);
        if dw <= d0 {
            assert(visited_at(vis, w));
        } else {
            assert(dw == d0 + 1);
            lemma_dist_parent(g, start, w);
            let m = choose|m: usize|
                #[trigger] g.edge(m, w) && reachable(g, start, m) && dist(g, start, m) + 1 == dist(
                    g,
                    start,
                    w,
                );
            assert(dist(g, start, m) <= d0);
            assert(visited_at(vis, m));
            assert(y.contains(m) || q.contains(m));
            if y.contains(m) {
                assert(visited_at(vis, w));
            } else {
                let i = choose|i: int| 0 <= i < q.len() && q[i] == m;
                if i == 0 {
                    assert(m == p);
                    assert(nb.contains(w));
                    assert(w < vis.len());
                } else {
                    assert(mid.len() > 0);
                    assert(q2[0] == q[1]);
                    assert(dist(g, start, q[1]) == d0 + 1);
                    assert(dist(g, start, q[1]) <= dist(g, start, q[i]));
                    assert(false);
                }
            }
        }
    }
}

impl<'a> BfsIterator<'a> {
    /// The cursor's invariant, established by `new` and kept by `next`.
    pub open spec fn wf(self) -> bool {
        &&& traversal_inv(*self.graph, self.start@, self.visited@, self.queue@, self.yielded@)
        &&& layered(*self.graph, self.start@, self.visited@, self.queue@, self.yielded@)
    }

    /// Starts a breadth-first traversal at `start`.  An in-range start
    /// makes a one-element frontier; an out-of-range start makes an empty,
    /// already exhausted traversal.
    pub fn new(graph: &'a Graph, start: usize) -> (it: Self)
        requires
            graph.wf(),
        ensures
            it.wf(),
            it.graph == graph,
            it.start@ == start,
            it.yielded@ == Seq::<usize>::empty(),
            start < graph.node_count() ==> it.queue@ == seq![start],
            start >= graph.node_count() ==> it.queue@ == Seq::<usize>::empty(),
    {
        let (visited, queue) = initial_state(graph, start);
        proof {
            lemma_dist_self(*graph, start);
            if start < graph.node_count() {
                assert(queue@ == seq![start]);
                assert(queue@[0] == start && queue@.last() == start);
                assert forall|w: usize|
                    reachable(*graph, start, w) && #[trigger] dist(*graph, start, w) <= dist(
                    *graph,
                    start,
                    queue@[0],
                ) implies visited_at(visited@, w) by {
                    let k = choose|k: nat| reachable_within(*graph, start, w, k);
                    lemma_dist_exists(*graph, start, w, k);
                    assert(reachable_within(*graph, start, w, 0));
                    assert(w == start);
                }
            }
            assert(layered(*graph, start, visited@, queue@, Seq::<usize>::empty()));
        }
        BfsIterator { graph, queue, visited, start: Ghost(start), yielded: Ghost(Seq::empty()) }
    }

    /// Advances the traversal: yields the position of the next node in
    /// breadth-first order, or `None` once the queue is exhausted.  The
    /// yielded position is the queue's front; its not-yet-visited neighbors
    /// are marked and appended to the back in neighbor-list order.
    pub fn next(&mut self) -> (r: Option<usize>)
        requires
            old(self).wf(),
        ensures
            final(self).wf(),
            final(self).graph == old(self).graph,
            final(self).start == old(self).start,
            r is None <==> old(self).queue@.len() == 0,
            r is None ==> final(self).queue@ == old(self).queue@ && final(self).visited@ == old(
                self,
            ).visited@ && final(self).yielded@ == old(self).yielded@,
            r matches Some(p) ==> p == old(self).queue@[0] && p < old(self).graph.node_count()
                && final(self).yielded@ == old(self).yielded@.push(p) && final(self).queue@ == old(
                self,
            ).queue@.drop_first() + discover(
                old(self).visited@,
                old(self).graph.nodes@[p as int].neighbors@,
            ) && final(self).visited@ == mark(
                old(self).visited@,
                old(self).graph.nodes@[p as int].neighbors@,
            ),
    {
        if self.queue.len() == 0 {
            return None;
        }
        let p = self.queue.remove(0);
        proof {
            assert(old(self).queue@.contains(p));
            assert(visited_at(old(self).visited@, p));
        }
        let g: &Graph = self.graph;
        let node = &g.nodes[p];
        proof {
            assert forall|j: int| 0 <= j < node.neighbors@.len() implies (
            #[trigger] node.neighbors@[j]) < self.visited@.len() by {
                assert(g.nodes@[p as int].neighbors@[j] < g.nodes@.len());
            }
        }
        push_unvisited(&mut self.visited, &mut self.queue, &node.neighbors);
        self.yielded = Ghost(self.yielded@.push(p));
        proof {
            let q = old(self).queue@;
            let nb = g.nodes@[p as int].neighbors@;
            lemma_remove_at_contains(q, 0);
            assert(q.drop_first() =~= q.remove(0));
            assert forall|x: usize| #[trigger] nb.contains(x) <==> g.edge(p, x) by {}
            lemma_step_layered(*g, self.start@, old(self).visited@, q, old(self).yielded@, p, nb);
            lemma_step_inv(
                *g,
                self.start@,
                old(self).visited@,
                q,
                old(self).yielded@,
                p,
                q.drop_first(),
                nb,
            );
        }
        Some(p)
    }

    /// Law: at every stage the yielded positions are pairwise distinct and
    /// all reachable from the start.
    pub proof fn lemma_yields_sound(self)
        requires
            self.wf(),
        ensures
            self.yielded@.no_duplicates(),
            forall|j: int|
                0 <= j < self.yielded@.len() ==> reachable(
                    *self.graph,
                    self.start@,
                    #[trigger] self.yielded@[j],
                ),
    {
        assert forall|j: int| 0 <= j < self.yielded@.len() implies reachable(
            *self.graph,
            self.start@,
            self.yielded@[j],
        ) by {
            assert(self.yielded@.contains(self.yielded@[j]));
            assert(visited_at(self.visited@, self.yielded@[j]));
        }
    }

    /// Law: breadth-first yields come in non-decreasing distance from the
    /// start: every node of layer `i` is yielded before any node of layer
    /// `i + 1`.
    pub proof fn lemma_layer_order(self)
        requires
            self.wf(),
        ensures
            forall|i: int|
                0 <= i && i + 1 < self.yielded@.len() ==> dist(
                    *self.graph,
                    self.start@,
                    #[trigger] self.yielded@[i],
                ) <= dist(*self.graph, self.start@, self.yielded@[i + 1]),
    {
    }

    /// Law: whatever has been yielded, the start node came first.
    pub proof fn lemma_start_first(self)
        requires
            self.wf(),
            self.yielded@.len() > 0,
        ensures
            self.yielded@[0] == self.start@,
    {
    }

    /// Law: once the queue has run empty, the traversal has yielded every
    /// position reachable from a valid start, each exactly once, and
    /// nothing else.
    pub proof fn lemma_exhausted_yields_reachable(self)
        requires
            self.wf(),
            self.queue@.len() == 0,
            self.start@ < self.graph.node_count(),
        ensures
            forall|t: usize| #[trigger]
                self.yielded@.contains(t) <==> reachable(*self.graph, self.start@, t),
            self.yielded@.no_duplicates(),
    {
        assert(self.queue@ =~= Seq::<usize>::empty());
        lemma_exhausted_complete(*self.graph, self.start@, self.visited@, self.yielded@);
    }
}

} // verus!

//! Priority traversal: among all positions discovered so far, the one with
//! the smallest value (position as tie-break) is yielded next.

use vstd::prelude::*;

use crate::graph::Graph;
use crate::reach::reachable;
use crate::visit::{
    discover, initial_state, lemma_exhausted_complete, lemma_mark_discover,
    lemma_remove_at_contains, lemma_step_inv, mark, push_unvisited, traversal_inv, visited_at,
};

verus! {

/// The priority order: node `a` comes before node `b` when its value is
/// smaller, or the values tie and `a`'s position is the smaller one.
pub open spec fn key_le(g: Graph, a: usize, b: usize) -> bool {
    g.value_at(a) < g.value_at(b) || (g.value_at(a) == g.value_at(b) && a <= b)
}

/// Every edge leads from a value to an equal or larger value.
pub open spec fn monotone_values(g: Graph) -> bool {
    forall|u: usize, v: usize| #[trigger] g.edge(u, v) ==> g.value_at(u) <= g.value_at(v)
}

/// The ordering discipline of the priority traversal: the values yielded so
/// far never decrease, and no frontier position holds a value below the
/// last yielded one.
pub open spec fn ordered_so_far(g: Graph, frontier: Seq<usize>, yielded: Seq<usize>) -> bool {
    &&& (forall|j: int|
        0 <= j && j + 1 < yielded.len() ==> g.value_at(#[trigger] yielded[j]) <= g.value_at(
            yielded[j + 1],
        ))
    &&& (yielded.len() > 0 ==> forall|j: int|
        0 <= j < frontier.len() ==> g.value_at(yielded.last()) <= g.value_at(
            #[trigger] frontier[j],
        ))
}

/// A pull-based cursor that yields, among all positions discovered so far,
/// the not-yet-yielded one with the smallest value next.  The traversal
/// borrows the graph and owns its frontier and visited table; a position is
/// marked visited when it enters the frontier, so each reachable node is
/// yielded exactly once.
pub struct NextSmallestIterator<'a> {
    pub graph: &'a Graph,
    pub heap: Vec<usize>,
    pub visited: Vec<bool>,
    pub start: Ghost<usize>,
    pub yielded: Ghost<Seq<usize>>,
}

impl<'a> NextSmallestIterator<'a> {
    /// The cursor's invariant, established by `new` and kept by `next`.
    pub open spec fn wf(self) -> bool {
        &&& traversal_inv(*self.graph, self.start@, self.visited@, self.heap@, self.yielded@)
        &&& (monotone_values(*self.graph) ==> ordered_so_far(
            *self.graph,
            self.heap@,
            self.yielded@,
        ))
    }

    /// Starts a priority traversal at `start`.  An in-range start makes a
    /// one-element frontier; an out-of-range start makes an empty, already
    /// exhausted traversal.
    pub fn new(graph: &'a Graph, start: usize) -> (it: Self)
        requires
            graph.wf(),
        ensures
            it.wf(),
            it.graph == graph,
            it.start@ == start,
            it.yielded@ == Seq::<usize>::empty(),
            start < graph.node_count() ==> it.heap@ == seq![start],
            start >= graph.node_count() ==> it.heap@ == Seq::<usize>::empty(),
    {
        let (visited, heap) = initial_state(graph, start);
        NextSmallestIterator {
            graph,
            heap,
            visited,
            start: Ghost(start),
            yielded: Ghost(Seq::empty()),
        }
    }

    /// Advances the traversal: yields the position whose (value, position)
    /// key is smallest in the frontier, or `None` once the frontier is
    /// exhausted.  The yielded position's not-yet-visited neighbors are
    /// marked and added to the frontier.
    #[verifier::rlimit(60)]
    pub fn next(&mut self) -> (r: Option<usize>)
        requires
            old(self).wf(),
        ensures
            final(self).wf(),
            final(self).graph == old(self).graph,
            final(self).start == old(self).start,
            r is None <==> old(self).heap@.len() == 0,
            r is None ==> final(self).heap@ == old(self).heap@ && final(self).visited@ == old(
                self,
            ).visited@ && final(self).yielded@ == old(self).yielded@,
            r matches Some(p) ==> ({
                &&& old(self).heap@.contains(p)
                &&& forall|k: int|
                    0 <= k < old(self).heap@.len() ==> key_le(
                        *old(self).graph,
                        p,
                        #[trigger] old(self).heap@[k],
                    )
                &&& p < old(self).graph.node_count()
                &&& final(self).yielded@ == old(self).yielded@.push(p)
                &&& final(self).visited@ == mark(
                    old(self).visited@,
                    old(self).graph.nodes@[p as int].neighbors@,
                )
                &&& exists|i: int|
                    0 <= i < old(self).heap@.len() && old(self).heap@[i] == p && final(self).heap@
                        == old(self).heap@.remove(i) + discover(
                        old(self).visited@,
                        old(self).graph.nodes@[p as int].neighbors@,
                    )
            }),
    {
        if self.heap.len() == 0 {
            return None;
        }
        let g: &Graph = self.graph;
        proof {
            assert forall|j: int| 0 <= j < self.heap@.len() implies (#[trigger] self.heap@[j])
                < g.node_count() by {
                assert(self.heap@.contains(self.heap@[j]));
                assert(visited_at(self.visited@, self.heap@[j]));
            }
        }
        let best = min_position(g, &self.heap);
        let p = self.heap.remove(best);
        proof {
            assert(old(self).heap@.contains(p));
            assert(visited_at(old(self).visited@, p));
        }
        let node = &g.nodes[p];
        proof {
            assert forall|j: int| 0 <= j < node.neighbors@.len() implies (
            #[trigger] node.neighbors@[j]) < self.visited@.len() by {
                assert(g.nodes@[p as int].neighbors@[j] < g.nodes@.len());
            }
        }
        push_unvisited(&mut self.visited, &mut self.heap, &node.neighbors);
        self.yielded = Ghost(self.yielded@.push(p));
        proof {
            let gg = *old(self).graph;
            let q = old(self).heap@;
            let y = old(self).yielded@;
            let nb = gg.nodes@[p as int].neighbors@;
            let mid = q.remove(best as int);
            lemma_remove_at_contains(q, best as int);
            assert forall|x: usize| #[trigger] nb.contains(x) <==> gg.edge(p, x) by {}
            lemma_step_inv(gg, self.start@, old(self).visited@, q, y, p, mid, nb);
            if monotone_values(gg) {
                let d = discover(old(self).visited@, nb);
                let y2 = y.push(p);
                let h2 = mid + d;
                lemma_mark_discover(old(self).visited@, nb);
                assert forall|j: int|
                    0 <= j && j + 1 < y2.len() implies gg.value_at(#[trigger] y2[j])
                    <= gg.value_at(y2[j + 1]) by {
                    if j + 1 < y.len() {
                        assert(y2[j] == y[j] && y2[j + 1] == y[j + 1]);
                    } else {
                        assert(j + 1 == y.len());
                        assert(y2[j] == y[j] && y[j] == y.last());
                        assert(y2[j + 1] == p);
                        assert(gg.value_at(y.last()) <= gg.value_at(q[best as int]));
                        assert(key_le(gg, p, q[best as int]));
                    }
                }
                assert forall|j: int| 0 <= j < h2.len() implies gg.value_at(y2.last())
                    <= gg.value_at(#[trigger] h2[j]) by {
                    assert(y2.last() == p);
                    if j < mid.len() {
                        assert(h2[j] == mid[j]);
                        assert(mid.contains(mid[j]));
                        assert(q.contains(mid[j]));
                        let k = choose|k: int| 0 <= k < q.len() && q[k] == mid[j];
                        assert(key_le(gg, p, q[k]));
                    } else {
                        assert(h2[j] == d[j - mid.len()]);
                        assert(d.contains(h2[j]));
                        assert(nb.contains(h2[j]));
                        assert(gg.edge(p, h2[j]));
                    }
                }
                assert(ordered_so_far(gg, h2, y2));
            }
        }
        Some(p)
    }

    /// Law: at every stage the yielded positions are pairwise distinct and
    /// all reachable from the start.
    pub proof fn lemma_yields_sound(self)
        requires
            self.wf(),
        ensures
            self.yielded@.no_duplicates(),
            forall|j: int|
                0 <= j < self.yielded@.len() ==> reachable(
                    *self.graph,
                    self.start@,
                    #[trigger] self.yielded@[j],
                ),
    {
        assert forall|j: int| 0 <= j < self.yielded@.len() implies reachable(
            *self.graph,
            self.start@,
            self.yielded@[j],
        ) by {
            assert(self.yielded@.contains(self.yielded@[j]));
            assert(visited_at(self.visited@, self.yielded@[j]));
        }
    }

    /// Law: whatever has been yielded, the start node came first.
    pub proof fn lemma_start_first(self)
        requires
            self.wf(),
            self.yielded@.len() > 0,
        ensures
            self.yielded@[0] == self.start@,
    {
    }

    /// Law: once the frontier has run empty, the traversal has yielded
    /// every position reachable from a valid start, each exactly once, and
    /// nothing else.
    pub proof fn lemma_exhausted_yields_reachable(self)
        requires
            self.wf(),
            self.heap@.len() == 0,
            self.start@ < self.graph.node_count(),
        ensures
            forall|t: usize| #[trigger]
                self.yielded@.contains(t) <==> reachable(*self.graph, self.start@, t),
            self.yielded@.no_duplicates(),
    {
        assert(self.heap@ =~= Seq::<usize>::empty());
        lemma_exhausted_complete(*self.graph, self.start@, self.visited@, self.yielded@);
    }

    /// Law: when every edge of the graph leads from a value to an equal or
    /// larger value, the values yielded so far come in non-decreasing
    /// order.
    pub proof fn lemma_values_non_decreasing(self)
        requires
            self.wf(),
            monotone_values(*self.graph),
        ensures
            forall|j: int|
                0 <= j && j + 1 < self.yielded@.len() ==> self.graph.value_at(
                    #[trigger] self.yielded@[j],
                ) <= self.graph.value_at(self.yielded@[j + 1]),
    {
    }
}

/// The index of the frontier element whose (value, position) key is
/// smallest; ties on value go to the smaller position.
#[verifier::loop_isolation(false)]
fn min_position(g: &Graph, heap: &Vec<usize>) -> (best: usize)
    requires
        heap@.len() > 0,
        forall|j: int| 0 <= j < heap@.len() ==> (#[trigger] heap@[j]) < g.node_count(),
    ensures
        best < heap@.len(),
        forall|k: int|
            0 <= k < heap@.len() ==> key_le(*g, heap@[best as int], #[trigger] heap@[k]),
{
    let mut best: usize = 0;
    let mut j: usize = 1;
    while j < heap.len()
        invariant
            best < j,
            j <= heap@.len(),
            forall|k: int| 0 <= k < j ==> key_le(*g, heap@[best as int], #[trigger] heap@[k]),
        decreases heap@.len() - j,
    {
        let a = heap[j];
        let b = heap[best];
        let va = g.nodes[a].value;
        let vb = g.nodes[b].value;
        if va < vb || (va == vb && a < b) {
            best = j;
        }
        j += 1;
    }
    best
}

} // verus!
